//! Composite cache keys.
//!
//! One flat cache holds records from every namespace, so a record's
//! (namespace, raw key) pair is encoded into a single byte-string key:
//! a named namespace `N` with raw key `K` becomes `:/N/K`, while a
//! root-namespace raw key is used verbatim.  The encoding is reversible
//! as long as namespace names contain no `/` and root raw keys do not
//! begin with `:/`.

use vstd::prelude::*;

verus! {

/// The byte `:`.
pub const COLON: u8 = 58;
/// The byte `/`.
pub const SLASH: u8 = 47;

/// A composite key that begins with the reserved `:/` prefix carries a
/// namespace; any other composite key is a root-namespace raw key.
pub open spec fn is_prefixed(ck: Seq<u8>) -> bool {
    ck.len() >= 2 && ck[0] == COLON && ck[1] == SLASH
}

/// The composite key for raw key `key` in named namespace `ns`: `:/ns/key`.
pub open spec fn composite_key_spec(ns: Seq<u8>, key: Seq<u8>) -> Seq<u8> {
    seq![COLON, SLASH] + ns + seq![SLASH] + key
}

/// Index of the first `/` in `s`, or -1 if there is none.
pub open spec fn find_slash(s: Seq<u8>) -> int
    decreases s.len(),
{
    if s.len() == 0 {
        -1
    } else if s[0] == SLASH {
        0
    } else if find_slash(s.skip(1)) == -1 {
        -1
    } else {
        find_slash(s.skip(1)) + 1
    }
}

/// A prefixed composite key parses into (namespace, raw key) when its
/// remainder holds a `/` to split at.
pub open spec fn parses_named(ck: Seq<u8>) -> bool {
    is_prefixed(ck) && find_slash(ck.skip(2)) >= 0
}

/// The namespace part of a well-formed named composite key.
pub open spec fn parsed_ns(ck: Seq<u8>) -> Seq<u8> {
    ck.skip(2).take(find_slash(ck.skip(2)))
}

/// The raw-key part of a well-formed named composite key.
pub open spec fn parsed_key(ck: Seq<u8>) -> Seq<u8> {
    ck.skip(2).skip(find_slash(ck.skip(2)) + 1)
}

/// `find_slash` returns -1 or an index into `s`.
pub proof fn lemma_find_slash_bounds(s: Seq<u8>)
    ensures
        -1 <= find_slash(s) < s.len(),
    decreases s.len(),
{
    if s.len() == 0 {
    } else if s[0] == SLASH {
    } else {
        lemma_find_slash_bounds(s.skip(1));
    }
}

/// `find_slash` returns -1 exactly when `s` holds no `/`, and otherwise
/// the first index of `/` in `s`.
pub proof fn lemma_find_slash_characterization(s: Seq<u8>)
    ensures
        find_slash(s) == -1 ==> forall|i: int| 0 <= i < s.len() ==> s[i] != SLASH,
        find_slash(s) >= 0 ==> {
            &&& find_slash(s) < s.len()
            &&& s[find_slash(s)] == SLASH
            &&& forall|i: int| 0 <= i < find_slash(s) ==> s[i] != SLASH
        },
    decreases s.len(),
{
    if s.len() == 0 {
    } else if s[0] == SLASH {
    } else {
        lemma_find_slash_bounds(s.skip(1));
        lemma_find_slash_characterization(s.skip(1));
        if find_slash(s.skip(1)) == -1 {
            assert forall|i: int| 0 <= i < s.len() implies s[i] != SLASH by {
                if i > 0 {
                    assert(s.skip(1)[i - 1] == s[i]);
                }
            }
        } else {
            let r = find_slash(s.skip(1));
            assert(s.skip(1)[r] == s[r + 1]);
            assert forall|i: int| 0 <= i < r + 1 implies s[i] != SLASH by {
                if i > 0 {
                    assert(s.skip(1)[i - 1] == s[i]);
                }
            }
        }
    }
}

/// `find_slash` is determined by its characterization: if `m` is the
/// first index holding `/`, then `find_slash` returns `m`.
pub proof fn lemma_find_slash_unique(s: Seq<u8>, m: int)
    requires
        0 <= m < s.len(),
        s[m] == SLASH,
        forall|i: int| 0 <= i < m ==> s[i] != SLASH,
    ensures
        find_slash(s) == m,
    decreases s.len(),
{
    if m == 0 {
    } else {
        assert forall|i: int| 0 <= i < m - 1 implies s.skip(1)[i] != SLASH by {
            assert(s.skip(1)[i] == s[i + 1]);
        }
        assert(s.skip(1)[m - 1] == s[m]);
        lemma_find_slash_unique(s.skip(1), m - 1);
    }
}

/// In `ns + / + key` with a slash-free `ns`, the first `/` stands right
/// after `ns`.
proof fn lemma_find_slash_in_encoding(ns: Seq<u8>, key: Seq<u8>)
    requires
        !ns.contains(SLASH),
    ensures
        find_slash(ns + seq![SLASH] + key) == ns.len(),
{
    let s = ns + seq![SLASH] + key;
    assert(s[ns.len() as int] == SLASH);
    assert forall|i: int| 0 <= i < ns.len() implies s[i] != SLASH by {
        assert(s[i] == ns[i]);
        assert(!ns.contains(SLASH));
        if ns[i] == SLASH {
            assert(ns.contains(SLASH));
        }
    }
    lemma_find_slash_unique(s, ns.len() as int);
}

/// Encoding then parsing a (namespace, raw key) pair gives the pair
/// back: the composite-key encoding is lossless for slash-free
/// namespaces.
pub proof fn lemma_composite_key_roundtrip(ns: Seq<u8>, key: Seq<u8>)
    requires
        !ns.contains(SLASH),
    ensures
        parses_named(composite_key_spec(ns, key)),
        parsed_ns(composite_key_spec(ns, key)) == ns,
        parsed_key(composite_key_spec(ns, key)) == key,
{
    let ck = composite_key_spec(ns, key);
    let rest = ns + seq![SLASH] + key;
    assert(ck.skip(2) =~= rest);
    lemma_find_slash_in_encoding(ns, key);
    assert(parsed_ns(ck) =~= ns);
    assert(parsed_key(ck) =~= key);
}

/// Parsing then re-encoding a well-formed named composite key gives the
/// key back, and the parsed namespace is slash-free: parsing is the
/// inverse of encoding.
pub proof fn lemma_composite_key_reconstruct(ck: Seq<u8>)
    requires
        parses_named(ck),
    ensures
        !parsed_ns(ck).contains(SLASH),
        composite_key_spec(parsed_ns(ck), parsed_key(ck)) == ck,
{
    let rest = ck.skip(2);
    let m = find_slash(rest);
    lemma_find_slash_characterization(rest);
    assert forall|i: int| 0 <= i < parsed_ns(ck).len() implies parsed_ns(ck)[i] != SLASH by {
        assert(parsed_ns(ck)[i] == rest[i]);
    }
    if parsed_ns(ck).contains(SLASH) {
        let i = choose|i: int| 0 <= i < parsed_ns(ck).len() && parsed_ns(ck)[i] == SLASH;
        assert(parsed_ns(ck)[i] != SLASH);
    }
    assert(composite_key_spec(parsed_ns(ck), parsed_key(ck)) =~= ck);
}

/// Two distinct (namespace, raw key) pairs never share a composite key:
/// the encoding restricted to slash-free namespaces is injective.
pub proof fn lemma_composite_key_injective(ns1: Seq<u8>, key1: Seq<u8>, ns2: Seq<u8>, key2: Seq<u8>)
    requires
        !ns1.contains(SLASH),
        !ns2.contains(SLASH),
        composite_key_spec(ns1, key1) == composite_key_spec(ns2, key2),
    ensures
        ns1 == ns2,
        key1 == key2,
{
    lemma_composite_key_roundtrip(ns1, key1);
    lemma_composite_key_roundtrip(ns2, key2);
}

/// Whether two byte strings hold the same bytes.
pub fn bytes_eq(a: &[u8], b: &[u8]) -> (r: bool)
    ensures
        r == (a@ == b@),
{
    if a.len() != b.len() {
        proof {
            if a@ == b@ {
                assert(a@.len() == b@.len());
            }
        }
        return false;
    }
    let n = a.len();
    let mut i: usize = 0;
    while i < n
        invariant
            i <= n,
            n == a@.len() == b@.len(),
            forall|j: int| 0 <= j < i ==> a@[j] == b@[j],
        decreases n - i,
    {
        if a[i] != b[i] {
            return false;
        }
        i = i + 1;
    }
    proof {
        assert(a@ =~= b@);
    }
    true
}

/// Copies `s[a..b]` into a fresh vector.
fn sub_bytes(s: &[u8], a: usize, b: usize) -> (r: Vec<u8>)
    requires
        a <= b <= s@.len(),
    ensures
        r@ == s@.subrange(a as int, b as int),
{
    let mut r: Vec<u8> = Vec::new();
    let mut i: usize = a;
    while i < b
        invariant
            a <= i <= b <= s@.len(),
            r@ == s@.subrange(a as int, i as int),
        decreases b - i,
    {
        r.push(s[i]);
        assert(r@ =~= s@.subrange(a as int, i + 1 as int));
        i = i + 1;
    }
    r
}

/// Copies a byte string into a fresh vector.
pub fn bytes_copy(s: &[u8]) -> (r: Vec<u8>)
    ensures
        r@ == s@,
{
    let r = sub_bytes(s, 0, s.len());
    assert(s@.subrange(0, s@.len() as int) =~= s@);
    r
}

/// Builds the composite cache key `:/ns/key` for a named namespace.
pub fn composite_key(ns: &[u8], key: &[u8]) -> (r: Vec<u8>)
    ensures
        r@ == composite_key_spec(ns@, key@),
{
    let mut r: Vec<u8> = Vec::new();
    r.push(COLON);
    r.push(SLASH);
    let mut i: usize = 0;
    while i < ns.len()
        invariant
            i <= ns@.len(),
            r@ == seq![COLON, SLASH] + ns@.subrange(0, i as int),
        decreases ns@.len() - i,
    {
        r.push(ns[i]);
        assert(r@ =~= seq![COLON, SLASH] + ns@.subrange(0, i + 1 as int));
        i = i + 1;
    }
    r.push(SLASH);
    let mut j: usize = 0;
    while j < key.len()
        invariant
            j <= key@.len(),
            r@ == seq![COLON, SLASH] + ns@ + seq![SLASH] + key@.subrange(0, j as int),
        decreases key@.len() - j,
    {
        r.push(key[j]);
        assert(r@ =~= seq![COLON, SLASH] + ns@ + seq![SLASH] + key@.subrange(0, j + 1 as int));
        j = j + 1;
    }
    assert(ns@.subrange(0, ns@.len() as int) =~= ns@);
    assert(key@.subrange(0, key@.len() as int) =~= key@);
    assert(r@ =~= composite_key_spec(ns@, key@));
    r
}

/// A composite cache key taken apart again: either a named-namespace
/// record, a root-namespace record, or a prefixed key with no namespace
/// separator, which no well-formed encoding produces.
pub enum ParsedKey {
    Named { ns: Vec<u8>, key: Vec<u8> },
    Root { key: Vec<u8> },
    Malformed,
}

/// Splits a composite cache key back into its (namespace, raw key)
/// pair, or classifies it as a root key or as malformed.
pub fn parse_composite_key(ck: &[u8]) -> (r: ParsedKey)
    ensures
        match r {
            ParsedKey::Named { ns, key } => {
                &&& parses_named(ck@)
                &&& ns@ == parsed_ns(ck@)
                &&& key@ == parsed_key(ck@)
            },
            ParsedKey::Root { key } => !is_prefixed(ck@) && key@ == ck@,
            ParsedKey::Malformed => is_prefixed(ck@) && !parses_named(ck@),
        },
{
    if !(ck.len() >= 2 && ck[0] == COLON && ck[1] == SLASH) {
        return ParsedKey::Root { key: sub_bytes(ck, 0, ck.len()) };
    }
    let n = ck.len();
    let mut i: usize = 2;
    while i < n
        invariant
            2 <= i <= n == ck@.len(),
            is_prefixed(ck@),
            forall|j: int| 2 <= j < i ==> ck@[j] != SLASH,
        decreases n - i,
    {
        if ck[i] == SLASH {
            proof {
                let rest = ck@.skip(2);
                assert forall|j: int| 0 <= j < i - 2 implies rest[j] != SLASH by {
                    assert(rest[j] == ck@[j + 2]);
                }
                assert(rest[i - 2] == ck@[i as int]);
                lemma_find_slash_unique(rest, i - 2);
                assert(parsed_ns(ck@) =~= ck@.subrange(2, i as int));
                assert(parsed_key(ck@) =~= ck@.subrange(i + 1 as int, n as int));
            }
            let ns = sub_bytes(ck, 2, i);
            let key = sub_bytes(ck, i + 1, n);
            return ParsedKey::Named { ns, key };
        }
        i = i + 1;
    }
    proof {
        let rest = ck@.skip(2);
        assert forall|j: int| 0 <= j < rest.len() implies rest[j] != SLASH by {
            assert(rest[j] == ck@[j + 2]);
        }
        lemma_find_slash_characterization(rest);
        if find_slash(rest) >= 0 {
            assert(rest[find_slash(rest)] == SLASH);
        }
    }
    ParsedKey::Malformed
}

} // verus!
