//! Topic names, topic filters, and the wildcard match relation between
//! them. Everything is stated over the UTF-8 bytes of the strings: the
//! separator `/` (47), the wildcards `+` (43) and `#` (35), and the
//! reserved prefix `$` (36) stand only for those characters in UTF-8.

use vstd::prelude::*;
use vstd::string::StrSliceExecFns;
use vstd::utf8::encode_utf8;

verus! {

/// The single-segment form of the multi-level wildcard `#`.
pub open spec fn spec_hash_seg() -> Seq<u8> {
    seq![35u8]
}

/// The single-segment form of the single-level wildcard `+`.
pub open spec fn spec_plus_seg() -> Seq<u8> {
    seq![43u8]
}

/// The segments of a topic string: the parts between `/` separators,
/// in order; a string without separators is one segment.
pub open spec fn spec_split(s: Seq<u8>) -> Seq<Seq<u8>>
    decreases s.len(),
{
    if s.len() == 0 {
        seq![Seq::<u8>::empty()]
    } else if s[0] == 47 {
        seq![Seq::<u8>::empty()] + spec_split(s.drop_first())
    } else {
        let rest = spec_split(s.drop_first());
        seq![seq![s[0]] + rest[0]] + rest.drop_first()
    }
}

/// A split always yields at least one segment.
pub proof fn lemma_split_nonempty(s: Seq<u8>)
    ensures
        spec_split(s).len() >= 1,
    decreases s.len(),
{
    if s.len() > 0 {
        lemma_split_nonempty(s.drop_first());
    }
}

/// Whether a filter's segments match a topic name's segments: `+`
/// matches exactly one segment, a final `#` matches all that remain,
/// and any other segment only its own text.
pub open spec fn spec_seg_match(fs: Seq<Seq<u8>>, ns: Seq<Seq<u8>>) -> bool
    decreases fs.len(),
{
    if fs.len() == 0 {
        ns.len() == 0
    } else if fs[0] == spec_hash_seg() && fs.len() == 1 {
        true
    } else if ns.len() == 0 {
        false
    } else if fs[0] == spec_plus_seg() || fs[0] == ns[0] {
        spec_seg_match(fs.drop_first(), ns.drop_first())
    } else {
        false
    }
}

/// The MQTT match relation between a filter and a topic name: the
/// segments match, and a filter that starts with a wildcard does not
/// match a topic name that starts with `$`.
pub open spec fn spec_filter_matches(f: Seq<u8>, n: Seq<u8>) -> bool {
    let fs = spec_split(f);
    let ns = spec_split(n);
    &&& spec_seg_match(fs, ns)
    &&& !(n.len() > 0 && n[0] == 36 && (fs[0] == spec_hash_seg() || fs[0] == spec_plus_seg()))
}

/// Whether one segment of a filter is acceptable: a wildcard only as
/// the whole segment, and `#` only in the last one.
pub open spec fn spec_seg_ok(seg: Seq<u8>, last: bool) -> bool {
    &&& ((exists|j: int| 0 <= j < seg.len() && seg[j] == 35) ==> (seg == spec_hash_seg() && last))
    &&& ((exists|j: int| 0 <= j < seg.len() && seg[j] == 43) ==> seg == spec_plus_seg())
}

/// Whether a filter is acceptable: non-empty, with every wildcard a
/// whole segment and `#` only at the end.
pub open spec fn spec_valid_filter(f: Seq<u8>) -> bool {
    let fs = spec_split(f);
    &&& f.len() >= 1
    &&& forall|i: int| 0 <= i < fs.len() ==> spec_seg_ok(#[trigger] fs[i], i == fs.len() - 1)
}

/// Splits a string's bytes at every separator, from `pos` on.
fn split_rec(b: &[u8], pos: usize) -> (r: Vec<Vec<u8>>)
    requires
        pos <= b@.len(),
    ensures
        r.deep_view() == spec_split(b@.skip(pos as int)),
        r@.len() >= 1,
    decreases b@.len() - pos,
{
    proof {
        lemma_split_nonempty(b@.skip(pos as int));
    }
    if pos == b.len() {
        let mut r: Vec<Vec<u8>> = Vec::new();
        r.push(Vec::new());
        proof {
            assert(b@.skip(pos as int) =~= Seq::<u8>::empty());
            assert(r.deep_view() =~~= spec_split(b@.skip(pos as int)));
        }
        r
    } else {
        proof {
            assert(b@.skip(pos as int).drop_first() =~= b@.skip(pos as int + 1));
        }
        if b[pos] == 47 {
            let mut r = split_rec(b, pos + 1);
            let ghost pre = r.deep_view();
            r.insert(0, Vec::new());
            proof {
                assert(r.deep_view() =~~= seq![Seq::<u8>::empty()] + pre);
            }
            r
        } else {
            let mut r = split_rec(b, pos + 1);
            let ghost pre = r.deep_view();
            let mut first = r.remove(0);
            let ghost f0 = first@;
            first.insert(0, b[pos]);
            proof {
                assert(first@ =~= seq![b@[pos as int]] + f0);
            }
            r.insert(0, first);
            proof {
                assert(r.deep_view() =~~= seq![seq![b@[pos as int]] + pre[0]] + pre.drop_first());
            }
            r
        }
    }
}

/// True when the two byte vectors hold the same bytes.
fn bytes_eq(a: &Vec<u8>, b: &Vec<u8>) -> (r: bool)
    ensures
        r == (a@ == b@),
{
    if a.len() != b.len() {
        proof {
            assert(a@.len() != b@.len());
        }
        return false;
    }
    let mut i: usize = 0;
    while i < a.len()
        invariant
            i <= a@.len(),
            a@.len() == b@.len(),
            forall|j: int| 0 <= j < i ==> a@[j] == b@[j],
        decreases a@.len() - i,
    {
        if a[i] != b[i] {
            return false;
        }
        i += 1;
    }
    proof {
        assert(a@ =~= b@);
    }
    true
}

/// True when the segment is exactly the one-byte segment `w`.
fn is_wildcard_seg(seg: &Vec<u8>, w: u8) -> (r: bool)
    ensures
        r == (seg@ == seq![w]),
{
    if seg.len() == 1 && seg[0] == w {
        proof {
            assert(seg@ =~= seq![w]);
        }
        true
    } else {
        proof {
            if seg@ == seq![w] {
                assert(seg@.len() == 1);
            }
        }
        false
    }
}

/// The deep view of a vector of byte vectors indexes to the element's
/// own bytes.
proof fn lemma_deep_index(fs: &Vec<Vec<u8>>, j: int)
    requires
        0 <= j < fs@.len(),
    ensures
        fs.deep_view()[j] == fs@[j]@,
        fs.deep_view().len() == fs@.len(),
{
    assert(fs@[j].deep_view() =~= fs@[j]@);
}

fn seg_match_rec(fs: &Vec<Vec<u8>>, ns: &Vec<Vec<u8>>, fi: usize, ni: usize) -> (r: bool)
    requires
        fi <= fs@.len(),
        ni <= ns@.len(),
    ensures
        r == spec_seg_match(fs.deep_view().skip(fi as int), ns.deep_view().skip(ni as int)),
    decreases fs@.len() - fi,
{
    let ghost fv = fs.deep_view().skip(fi as int);
    let ghost nv = ns.deep_view().skip(ni as int);
    if fi == fs.len() {
        proof {
            assert(fv =~= Seq::<Seq<u8>>::empty());
        }
        return ni == ns.len();
    }
    proof {
        lemma_deep_index(fs, fi as int);
        assert(fv[0] == fs.deep_view()[fi as int]);
        assert(fv.drop_first() =~= fs.deep_view().skip(fi as int + 1));
    }
    if is_wildcard_seg(&fs[fi], 35) && fi + 1 == fs.len() {
        return true;
    }
    if ni == ns.len() {
        proof {
            assert(nv =~= Seq::<Seq<u8>>::empty());
        }
        return false;
    }
    proof {
        lemma_deep_index(ns, ni as int);
        assert(nv[0] == ns.deep_view()[ni as int]);
        assert(nv.drop_first() =~= ns.deep_view().skip(ni as int + 1));
    }
    if is_wildcard_seg(&fs[fi], 43) || bytes_eq(&fs[fi], &ns[ni]) {
        seg_match_rec(fs, ns, fi + 1, ni + 1)
    } else {
        false
    }
}

/// Whether the filter matches the topic name, per the match relation
/// of the protocol.
pub fn filter_matches(filter: &str, topic: &str) -> (r: bool)
    ensures
        r == spec_filter_matches(encode_utf8(filter@), encode_utf8(topic@)),
{
    let fb = filter.as_bytes_vec();
    let nb = topic.as_bytes_vec();
    let fs = split_rec(fb.as_slice(), 0);
    let ns = split_rec(nb.as_slice(), 0);
    proof {
        assert(fb@.skip(0) =~= fb@);
        assert(nb@.skip(0) =~= nb@);
        assert(fs.deep_view().skip(0) =~= fs.deep_view());
        assert(ns.deep_view().skip(0) =~= ns.deep_view());
        lemma_deep_index(&fs, 0);
        lemma_split_nonempty(nb@);
    }
    if nb.len() > 0 && nb[0] == 36 {
        if is_wildcard_seg(&fs[0], 35) || is_wildcard_seg(&fs[0], 43) {
            return false;
        }
    }
    seg_match_rec(&fs, &ns, 0, 0)
}

/// Whether one segment of a filter is acceptable.
fn check_seg(seg: &Vec<u8>, last: bool) -> (r: bool)
    ensures
        r == spec_seg_ok(seg@, last),
{
    let mut has_hash = false;
    let mut has_plus = false;
    let mut i: usize = 0;
    while i < seg.len()
        invariant
            i <= seg@.len(),
            has_hash == (exists|j: int| 0 <= j < i && seg@[j] == 35),
            has_plus == (exists|j: int| 0 <= j < i && seg@[j] == 43),
        decreases seg@.len() - i,
    {
        if seg[i] == 35 {
            has_hash = true;
        }
        if seg[i] == 43 {
            has_plus = true;
        }
        i += 1;
    }
    let hash_ok = !has_hash || (is_wildcard_seg(seg, 35) && last);
    let plus_ok = !has_plus || is_wildcard_seg(seg, 43);
    hash_ok && plus_ok
}

/// Whether the filter is acceptable: non-empty, every wildcard a whole
/// segment, `#` only at the end.
#[verifier::loop_isolation(false)]
pub fn is_valid_filter(filter: &str) -> (r: bool)
    ensures
        r == spec_valid_filter(encode_utf8(filter@)),
{
    let fb = filter.as_bytes_vec();
    if fb.len() == 0 {
        return false;
    }
    let fs = split_rec(fb.as_slice(), 0);
    proof {
        assert(fb@.skip(0) =~= fb@);
    }
    let mut i: usize = 0;
    while i < fs.len()
        invariant
            i <= fs@.len(),
            fs.deep_view() == spec_split(fb@),
            forall|j: int|
                0 <= j < i ==> spec_seg_ok(#[trigger] fs.deep_view()[j], j == fs.deep_view().len()
                    - 1),
        decreases fs@.len() - i,
    {
        proof {
            lemma_deep_index(&fs, i as int);
        }
        if !check_seg(&fs[i], i + 1 == fs.len()) {
            proof {
                let fsp = spec_split(encode_utf8(filter@));
                assert(fsp == fs.deep_view());
                assert(!spec_seg_ok(fsp[i as int], i as int == fsp.len() - 1));
                assert(!spec_valid_filter(encode_utf8(filter@)));
            }
            return false;
        }
        i += 1;
    }
    true
}

} // verus!
