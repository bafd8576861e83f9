//! Deriving the eight-byte module name of an archive entry from a path.
use vstd::prelude::*;
use vstd::utf8::is_ascii_chars;
use vstd::utf8::{encode_utf8, is_ascii_chars_encode_utf8};

use unicode_segmentation::UnicodeSegmentation;

verus! {

/// What `std::path::Path::file_prefix` gives for a path: the file name up to
/// its first `.` that is not its first character.
pub uninterp spec fn path_file_prefix(path: Seq<char>) -> Option<Seq<char>>;

/// The bytes of each extended grapheme cluster of `s`, in order, as
/// `UnicodeSegmentation::grapheme_indices` finds them.
pub uninterp spec fn grapheme_clusters(s: Seq<char>) -> Seq<Seq<u8>>;

/// Relies on `std::path::Path::file_prefix`; the prefix of a `str` path is a
/// part of it, so it converts to text unchanged.
#[verifier::external_body]
fn file_prefix(path: &str) -> (r: Option<String>)
    ensures
        r is Some <==> path_file_prefix(path@) is Some,
        r matches Some(s) ==> path_file_prefix(path@) == Some(s@),
{
    std::path::Path::new(path).file_prefix().map(|p| p.to_string_lossy().into_owned())
}

/// Relies on `UnicodeSegmentation::grapheme_indices` with legacy clusters:
/// each cluster's bytes, in order.
#[verifier::external_body]
fn clusters_of(s: &str) -> (r: Vec<Vec<u8>>)
    ensures
        r@.len() == grapheme_clusters(s@).len(),
        forall|i: int| 0 <= i < r@.len() ==> #[trigger] r@[i]@ == grapheme_clusters(s@)[i],
{
    s.grapheme_indices(false).map(|(_, g)| g.as_bytes().to_vec()).collect()
}

/// `path` has a file name to take a module name from.
pub open spec fn path_has_prefix(path: Seq<char>) -> bool {
    path_file_prefix(path) is Some
}

/// `b` with an ASCII lower-case letter made upper case.
pub open spec fn upper_byte(b: u8) -> u8 {
    if 0x61 <= b <= 0x7A {
        (b - 32) as u8
    } else {
        b
    }
}

/// `s` with its ASCII lower-case letters made upper case.
pub open spec fn upper_bytes(s: Seq<u8>) -> Seq<u8> {
    s.map_values(|b: u8| upper_byte(b))
}

/// The leading clusters of `cs` whose bytes fit together in `budget` bytes,
/// concatenated.
pub open spec fn fitting_clusters(cs: Seq<Seq<u8>>, budget: int) -> Seq<u8>
    decreases cs.len(),
{
    if cs.len() == 0 || cs[0].len() > budget {
        Seq::empty()
    } else {
        cs[0] + fitting_clusters(cs.drop_first(), budget - cs[0].len())
    }
}

/// `b`, at most eight bytes, padded with spaces to eight bytes.
pub open spec fn pad_to_eight(b: Seq<u8>) -> Seq<u8> {
    b + Seq::new((8 - b.len()) as nat, |i: int| 0x20u8)
}

/// The module name for a file prefix: upper case, cut to eight bytes without
/// splitting a character (an ASCII prefix) or a grapheme cluster (any
/// other), then padded with spaces.
pub open spec fn module_name_for_prefix(prefix: Seq<char>) -> Seq<u8> {
    if is_ascii_chars(prefix) {
        let b = encode_utf8(prefix);
        pad_to_eight(upper_bytes(b.subrange(0, vstd::math::min(b.len() as int, 8))))
    } else {
        pad_to_eight(upper_bytes(fitting_clusters(grapheme_clusters(prefix), 8)))
    }
}

/// The module name derived from `path`.
pub open spec fn module_name_of(path: Seq<char>) -> Seq<u8> {
    module_name_for_prefix(path_file_prefix(path)->0)
}

/// Whether `path` has a file name to take a module name from.
pub fn has_file_prefix(path: &str) -> (r: bool)
    ensures
        r == path_has_prefix(path@),
{
    file_prefix(path).is_some()
}

proof fn lemma_fitting_len(cs: Seq<Seq<u8>>, budget: int)
    requires
        budget >= 0,
    ensures
        fitting_clusters(cs, budget).len() <= budget,
    decreases cs.len(),
{
    if cs.len() > 0 && cs[0].len() <= budget {
        lemma_fitting_len(cs.drop_first(), budget - cs[0].len());
    }
}

fn upper_padded(b: &Vec<u8>) -> (r: [u8; 8])
    requires
        b@.len() <= 8,
    ensures
        r@ == pad_to_eight(upper_bytes(b@)),
{
    let mut v: Vec<u8> = Vec::new();
    let mut i: usize = 0;
    while i < 8
        invariant
            i <= 8,
            b@.len() <= 8,
            v@.len() == i,
            forall|k: int| 0 <= k < i ==> #[trigger] v@[k] == pad_to_eight(upper_bytes(b@))[k],
        decreases 8 - i,
    {
        let c: u8 = if i < b.len() {
            let x = b[i];
            if 0x61 <= x && x <= 0x7A {
                x - 32
            } else {
                x
            }
        } else {
            0x20
        };
        v.push(c);
        i = i + 1;
    }
    let r: [u8; 8] = [v[0], v[1], v[2], v[3], v[4], v[5], v[6], v[7]];
    assert(r@ =~= pad_to_eight(upper_bytes(b@)));
    r
}

/// The bytes of each of `c`.
pub open spec fn cluster_bytes(c: Seq<Vec<u8>>) -> Seq<Seq<u8>> {
    c.map_values(|v: Vec<u8>| v@)
}

/// The leading clusters whose bytes fit together in `budget` bytes,
/// concatenated; a cluster is never split.
pub fn fit_clusters(clusters: &Vec<Vec<u8>>, budget: usize) -> (r: Vec<u8>)
    ensures
        r@ == fitting_clusters(cluster_bytes(clusters@), budget as int),
        r@.len() <= budget,
{
    let ghost cs = cluster_bytes(clusters@);
    let mut kept: Vec<u8> = Vec::new();
    let mut used: usize = 0;
    let mut i: usize = 0;
    let mut stop = false;
    proof {
        lemma_fitting_len(cs, budget as int);
    }
    assert(cs.subrange(0, cs.len() as int) =~= cs);
    while i < clusters.len() && !stop
        invariant
            clusters@.len() == cs.len(),
            cs == cluster_bytes(clusters@),
            i <= clusters@.len(),
            used <= budget,
            kept@.len() == used,
            stop ==> fitting_clusters(cs.subrange(i as int, cs.len() as int), budget - used)
                == Seq::<u8>::empty(),
            kept@ + fitting_clusters(cs.subrange(i as int, cs.len() as int), budget - used)
                == fitting_clusters(cs, budget as int),
        decreases clusters.len() - i + (if stop {
            0int
        } else {
            1int
        }),
    {
        let ghost rest = cs.subrange(i as int, cs.len() as int);
        let c = &clusters[i];
        assert(cs[i as int] == c@);
        if c.len() > budget - used {
            stop = true;
        } else {
            assert(rest.drop_first() =~= cs.subrange(i + 1, cs.len() as int));
            let mut j: usize = 0;
            let ghost before = kept@;
            while j < c.len()
                invariant
                    j <= c@.len(),
                    kept@ =~= before + c@.subrange(0, j as int),
                decreases c.len() - j,
            {
                kept.push(c[j]);
                j = j + 1;
                assert(kept@ =~= before + c@.subrange(0, j as int));
            }
            assert(c@.subrange(0, j as int) =~= c@);
            used = used + c.len();
            i = i + 1;
        }
    }
    if !stop {
        assert(cs.subrange(i as int, cs.len() as int) =~= Seq::<Seq<u8>>::empty());
    }
    assert(kept@ =~= fitting_clusters(cs, budget as int));
    kept
}

/// The eight-byte module name for `path`: the file prefix in upper case, cut
/// to at most eight bytes without splitting a character or grapheme
/// cluster, padded with spaces.
pub fn path_to_module_name(path: &str) -> (r: [u8; 8])
    requires
        path_has_prefix(path@),
    ensures
        r@ == module_name_of(path@),
{
    let prefix = match file_prefix(path) {
        Some(p) => p,
        None => {
            return [0x20u8, 0x20, 0x20, 0x20, 0x20, 0x20, 0x20, 0x20];
        },
    };
    let s = prefix.as_str();
    let mut kept: Vec<u8> = Vec::new();
    if s.is_ascii() {
        let bytes = s.as_bytes();
        let n: usize = if bytes.len() < 8 {
            bytes.len()
        } else {
            8
        };
        let mut i: usize = 0;
        while i < n
            invariant
                n <= bytes@.len(),
                n <= 8,
                i <= n,
                kept@ =~= bytes@.subrange(0, i as int),
            decreases n - i,
        {
            kept.push(bytes[i]);
            i = i + 1;
            assert(kept@ =~= bytes@.subrange(0, i as int));
        }
    } else {
        let clusters = clusters_of(s);
        let ghost cs = grapheme_clusters(s@);
        assert(cluster_bytes(clusters@) =~= cs);
        kept = fit_clusters(&clusters, 8);
    }
    upper_padded(&kept)
}

/// The length of `n` without its trailing spaces.
pub open spec fn unpadded_len(n: Seq<u8>) -> nat
    decreases n.len(),
{
    if n.len() == 0 {
        0
    } else if n.last() == 0x20 {
        unpadded_len(n.drop_last())
    } else {
        n.len()
    }
}

/// The text of a module name without its padding, one character per byte:
/// the file prefix of a path made from the name.
pub open spec fn name_text(n: Seq<u8>) -> Seq<char> {
    Seq::new(unpadded_len(n), |i: int| n[i] as char)
}

proof fn lemma_unpadded(n: Seq<u8>)
    ensures
        unpadded_len(n) <= n.len(),
        forall|i: int| unpadded_len(n) <= i < n.len() ==> #[trigger] n[i] == 0x20,
    decreases n.len(),
{
    if n.len() > 0 && n.last() == 0x20 {
        lemma_unpadded(n.drop_last());
        assert forall|i: int| unpadded_len(n) <= i < n.len() implies #[trigger] n[i] == 0x20 by {
            if i < n.len() - 1 {
                assert(n.drop_last()[i] == n[i]);
            }
        }
    }
}

proof fn lemma_unpadded_pad(u: Seq<u8>)
    requires
        u.len() <= 8,
    ensures
        unpadded_len(pad_to_eight(u)) == unpadded_len(u),
    decreases 8 - u.len(),
{
    if u.len() < 8 {
        let u2 = u.push(0x20u8);
        assert(pad_to_eight(u) =~= pad_to_eight(u2));
        lemma_unpadded_pad(u2);
        assert(u2.drop_last() =~= u);
    } else {
        assert(pad_to_eight(u) =~= u);
    }
}

proof fn lemma_upper_is_upper(s: Seq<u8>)
    ensures
        upper_bytes(upper_bytes(s)) == upper_bytes(s),
        forall|i: int| 0 <= i < s.len() ==> !(0x61 <= #[trigger] upper_bytes(s)[i] <= 0x7A),
        forall|i: int| 0 <= i < s.len() ==> (s[i] < 0x80 ==> #[trigger] upper_bytes(s)[i] < 0x80),
{
    assert(upper_bytes(upper_bytes(s)) =~= upper_bytes(s));
}

/// A module name is eight bytes, holds no lower-case ASCII letter, and is
/// padded with spaces only.
pub proof fn lemma_module_name_shape(prefix: Seq<char>)
    ensures
        module_name_for_prefix(prefix).len() == 8,
        forall|i: int|
            0 <= i < 8 ==> !(0x61 <= #[trigger] module_name_for_prefix(prefix)[i] <= 0x7A),
{
    if is_ascii_chars(prefix) {
        let b = encode_utf8(prefix);
        let u = upper_bytes(b.subrange(0, vstd::math::min(b.len() as int, 8)));
        lemma_upper_is_upper(b.subrange(0, vstd::math::min(b.len() as int, 8)));
        assert forall|i: int| 0 <= i < 8 implies !(0x61 <= #[trigger] pad_to_eight(u)[i] <= 0x7A) by {
            if i >= u.len() {
                assert(pad_to_eight(u)[i] == 0x20);
            } else {
                assert(pad_to_eight(u)[i] == u[i]);
            }
        }
    } else {
        let f = fitting_clusters(grapheme_clusters(prefix), 8);
        lemma_fitting_len(grapheme_clusters(prefix), 8);
        lemma_upper_is_upper(f);
        let u = upper_bytes(f);
        assert forall|i: int| 0 <= i < 8 implies !(0x61 <= #[trigger] pad_to_eight(u)[i] <= 0x7A) by {
            if i >= u.len() {
                assert(pad_to_eight(u)[i] == 0x20);
            } else {
                assert(pad_to_eight(u)[i] == u[i]);
            }
        }
    }
}

/// Deriving a module name again from the text of a derived name, its
/// padding removed, gives the same name, for every ASCII file prefix.
pub proof fn lemma_module_name_idempotent(prefix: Seq<char>)
    requires
        is_ascii_chars(prefix),
    ensures
        module_name_for_prefix(name_text(module_name_for_prefix(prefix))) == module_name_for_prefix(
            prefix,
        ),
{
    broadcast use is_ascii_chars_encode_utf8;

    let b = encode_utf8(prefix);
    let k = vstd::math::min(b.len() as int, 8);
    let raw = b.subrange(0, k);
    let u = upper_bytes(raw);
    let n = pad_to_eight(u);
    assert(n == module_name_for_prefix(prefix));
    lemma_unpadded_pad(u);
    lemma_unpadded(u);
    lemma_upper_is_upper(raw);
    let m = unpadded_len(u);
    let t = name_text(n);
    assert forall|i: int| 0 <= i < raw.len() implies #[trigger] raw[i] < 0x80 by {
        assert(prefix[i] as u8 == b[i]);
    }
    assert(is_ascii_chars(t));
    let bt = encode_utf8(t);
    assert(bt =~= u.subrange(0, m as int)) by {
        assert forall|i: int| 0 <= i < m implies bt[i] == u[i] by {
            assert(t[i] as u8 == bt[i]);
            assert(n[i] == u[i]);
        }
    }
    assert(vstd::math::min(bt.len() as int, 8) == m);
    assert(bt.subrange(0, m as int) =~= bt);
    assert(upper_bytes(bt) =~= bt) by {
        assert forall|i: int| 0 <= i < bt.len() implies upper_bytes(bt)[i] == bt[i] by {
            assert(bt[i] == u[i]);
            assert(upper_bytes(u)[i] == u[i]);
        }
    }
    assert(pad_to_eight(bt) =~= n) by {
        assert forall|i: int| 0 <= i < 8 implies pad_to_eight(bt)[i] == n[i] by {
            if i < m {
                assert(pad_to_eight(bt)[i] == bt[i]);
            } else if i < u.len() {
                assert(u[i] == 0x20);
            }
        }
    }
}

} // verus!
