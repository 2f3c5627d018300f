//! Which files of the models directory are models, and the order in which
//! they are listed: PLY and MagicaVoxel files, sorted by file stem.
use crate::model::DiscoveredModel;
use crate::scene_state::{ascii_lower, ascii_lowercase};
use vstd::prelude::*;
use vstd::utf8::encode_utf8;

verus! {

/// A file found in the models directory: its path, its stem and its
/// extension as written.
#[derive(Clone, Debug)]
pub struct ModelFile {
    pub path: String,
    pub stem: String,
    pub extension: String,
}

/// A discovered model as plain text: path, stem, lower-case extension.
pub open spec fn model_view(m: DiscoveredModel) -> (Seq<char>, Seq<char>, Seq<char>) {
    (m.path@, m.name@, m.extension@)
}

/// Whether a lower-case extension names a supported model format.
pub open spec fn supported_extension(ext: Seq<char>) -> bool {
    ext == "ply"@ || ext == "vox"@
}

/// The models among the first `n` files: those whose extension, in lower
/// case, is `ply` or `vox`, in file order, with the extension in lower case.
pub open spec fn accepted_files(files: Seq<ModelFile>, n: int) -> Seq<(Seq<char>, Seq<char>, Seq<char>)>
    decreases n,
{
    if n <= 0 {
        Seq::empty()
    } else {
        let prev = accepted_files(files, n - 1);
        let f = files[n - 1];
        if supported_extension(ascii_lower(f.extension@)) {
            prev.push((f.path@, f.stem@, ascii_lower(f.extension@)))
        } else {
            prev
        }
    }
}

/// Byte-wise lexicographic order from position `i` on: at the first
/// differing byte the smaller one comes first, and a prefix comes first.
pub open spec fn bytes_le_from(a: Seq<u8>, b: Seq<u8>, i: nat) -> bool
    decreases a.len() - i,
{
    if i >= a.len() {
        true
    } else if i >= b.len() {
        false
    } else if a[i as int] != b[i as int] {
        a[i as int] < b[i as int]
    } else {
        bytes_le_from(a, b, i + 1)
    }
}

/// Byte-wise lexicographic order, the order of Rust strings.
pub open spec fn bytes_le(a: Seq<u8>, b: Seq<u8>) -> bool {
    bytes_le_from(a, b, 0)
}

/// The sort key of a model: the bytes of its stem.
pub open spec fn name_key(m: DiscoveredModel) -> Seq<u8> {
    encode_utf8(m.name@)
}

/// Any two byte strings are ordered one way or the other.
pub proof fn lemma_bytes_le_total(a: Seq<u8>, b: Seq<u8>, i: nat)
    ensures
        bytes_le_from(a, b, i) || bytes_le_from(b, a, i),
    decreases a.len() - i,
{
    if i < a.len() && i < b.len() && a[i as int] == b[i as int] {
        lemma_bytes_le_total(a, b, i + 1);
    }
}

/// The byte order is transitive.
pub proof fn lemma_bytes_le_transitive(a: Seq<u8>, b: Seq<u8>, c: Seq<u8>, i: nat)
    requires
        bytes_le_from(a, b, i),
        bytes_le_from(b, c, i),
    ensures
        bytes_le_from(a, c, i),
    decreases a.len() - i,
{
    if i < a.len() && i < b.len() && i < c.len() && a[i as int] == b[i as int] && b[i as int]
        == c[i as int] {
        lemma_bytes_le_transitive(a, b, c, i + 1);
    }
}

/// `a` comes before or with `b` in the lexicographic byte order: `a` is a
/// prefix of `b`, or at the first byte where they differ `a`'s is smaller.
pub open spec fn lexicographic_le(a: Seq<u8>, b: Seq<u8>) -> bool {
    ||| (a.len() <= b.len() && forall|k: int| 0 <= k < a.len() ==> a[k] == b[k])
    ||| exists|i: int|
        0 <= i < a.len() && i < b.len() && (forall|k: int| 0 <= k < i ==> a[k] == b[k]) && #[trigger] a[i]
            < b[i]
}

proof fn lemma_bytes_le_from_is_lexicographic(a: Seq<u8>, b: Seq<u8>, i: nat)
    requires
        i <= a.len(),
        i <= b.len(),
        forall|k: int| 0 <= k < i ==> a[k] == b[k],
    ensures
        bytes_le_from(a, b, i) == lexicographic_le(a, b),
    decreases a.len() - i,
{
    if i >= a.len() {
    } else if i >= b.len() {
        if lexicographic_le(a, b) {
            let j = choose|j: int|
                0 <= j < a.len() && j < b.len() && (forall|k: int| 0 <= k < j ==> a[k] == b[k])
                    && #[trigger] a[j] < b[j];
            assert(a[j] == b[j]);
        }
    } else if a[i as int] != b[i as int] {
        if a[i as int] < b[i as int] {
            assert(lexicographic_le(a, b));
        } else {
            if lexicographic_le(a, b) {
                if exists|j: int|
                    0 <= j < a.len() && j < b.len() && (forall|k: int| 0 <= k < j ==> a[k] == b[k])
                        && #[trigger] a[j] < b[j] {
                    let j = choose|j: int|
                        0 <= j < a.len() && j < b.len() && (forall|k: int| 0 <= k < j ==> a[k] == b[k])
                            && #[trigger] a[j] < b[j];
                    if j > i {
                        assert(a[i as int] == b[i as int]);
                    } else if j < i {
                        assert(a[j] == b[j]);
                    }
                } else {
                    assert(a[i as int] == b[i as int]);
                }
            }
        }
    } else {
        lemma_bytes_le_from_is_lexicographic(a, b, i + 1);
    }
}

/// The stem order is the full lexicographic byte order of Rust strings: a
/// stem sorts before another when it is a prefix of it or when, at the first
/// byte where they differ (at any position), its byte is the smaller; two
/// stems sort together only when they are equal.
pub proof fn lemma_stem_order_is_lexicographic(a: Seq<u8>, b: Seq<u8>)
    ensures
        bytes_le(a, b) == lexicographic_le(a, b),
        bytes_le(a, b) && bytes_le(b, a) ==> a == b,
{
    lemma_bytes_le_from_is_lexicographic(a, b, 0);
    lemma_bytes_le_from_is_lexicographic(b, a, 0);
    if bytes_le(a, b) && bytes_le(b, a) {
        if a.len() <= b.len() && forall|k: int| 0 <= k < a.len() ==> a[k] == b[k] {
            if b.len() <= a.len() && forall|k: int| 0 <= k < b.len() ==> b[k] == a[k] {
                assert(a =~= b);
            } else if b.len() > a.len() {
                if exists|i: int|
                    0 <= i < b.len() && i < a.len() && (forall|k: int| 0 <= k < i ==> b[k] == a[k])
                        && #[trigger] b[i] < a[i] {
                    let i = choose|i: int|
                        0 <= i < b.len() && i < a.len() && (forall|k: int| 0 <= k < i ==> b[k] == a[k])
                            && #[trigger] b[i] < a[i];
                    assert(a[i] == b[i]);
                }
            } else {
                assert(a =~= b);
            }
        } else {
            let i = choose|i: int|
                0 <= i < a.len() && i < b.len() && (forall|k: int| 0 <= k < i ==> a[k] == b[k])
                    && #[trigger] a[i] < b[i];
            if b.len() <= a.len() && forall|k: int| 0 <= k < b.len() ==> b[k] == a[k] {
                assert(b[i] == a[i]);
            } else {
                let j = choose|j: int|
                    0 <= j < b.len() && j < a.len() && (forall|k: int| 0 <= k < j ==> b[k] == a[k])
                        && #[trigger] b[j] < a[j];
                if j < i {
                    assert(a[j] == b[j]);
                } else if i < j {
                    assert(b[i] == a[i]);
                }
            }
        }
    }
}

fn bytes_le_exec(a: &[u8], b: &[u8]) -> (r: bool)
    ensures
        r == bytes_le(a@, b@),
{
    let mut i: usize = 0;
    while i < a.len()
        invariant
            i <= a@.len(),
            bytes_le_from(a@, b@, 0) == bytes_le_from(a@, b@, i as nat),
        decreases a@.len() - i,
    {
        if i >= b.len() {
            return false;
        }
        if a[i] != b[i] {
            return a[i] < b[i];
        }
        i = i + 1;
    }
    true
}

/// Whether model `a` sorts before or together with model `b` by stem.
fn name_le(a: &DiscoveredModel, b: &DiscoveredModel) -> (r: bool)
    ensures
        r == bytes_le(name_key(*a), name_key(*b)),
{
    bytes_le_exec(a.name.as_str().as_bytes(), b.name.as_str().as_bytes())
}

/// The files that are models (extension `ply` or `vox`, ignoring ASCII
/// case), in file order, with their extension in lower case.
pub fn accept_model_files(files: &Vec<ModelFile>) -> (r: Vec<DiscoveredModel>)
    ensures
        r@.map_values(|m: DiscoveredModel| model_view(m)) == accepted_files(files@, files@.len() as int),
{
    let ply = "ply".to_owned();
    let vox = "vox".to_owned();
    let mut out: Vec<DiscoveredModel> = Vec::new();
    let mut i: usize = 0;
    while i < files.len()
        invariant
            i <= files@.len(),
            ply@ == "ply"@,
            vox@ == "vox"@,
            out@.map_values(|m: DiscoveredModel| model_view(m)) == accepted_files(files@, i as int),
        decreases files@.len() - i,
    {
        let f = &files[i];
        let ext = ascii_lowercase(f.extension.as_str());
        if ext == ply || ext == vox {
            let ghost before = out@;
            out.push(DiscoveredModel { path: f.path.clone(), name: f.stem.clone(), extension: ext });
            assert(out@.map_values(|m: DiscoveredModel| model_view(m)) =~= before.map_values(
                |m: DiscoveredModel| model_view(m),
            ).push(model_view(out@.last())));
        }
        i = i + 1;
    }
    out
}

/// Whether `s` is in stem order.
pub open spec fn sorted_by_name(s: Seq<DiscoveredModel>) -> bool {
    forall|i: int, j: int| 0 <= i < j < s.len() ==> bytes_le(name_key(#[trigger] s[i]), name_key(#[trigger] s[j]))
}

/// `sorted` takes the entries of `original` at positions `pos`: each
/// position once, and entries with equal stems in their original order.
pub open spec fn stable_rearrangement(
    original: Seq<DiscoveredModel>,
    sorted: Seq<DiscoveredModel>,
    pos: Seq<int>,
) -> bool {
    &&& pos.len() == sorted.len() == original.len()
    &&& forall|i: int| 0 <= i < pos.len() ==> 0 <= #[trigger] pos[i] < original.len() && sorted[i] == original[pos[i]]
    &&& forall|i: int, j: int| 0 <= i < j < pos.len() ==> #[trigger] pos[i] != #[trigger] pos[j]
    &&& forall|i: int, j: int|
        0 <= i < j < pos.len() && name_key(#[trigger] sorted[i]) == name_key(#[trigger] sorted[j]) ==> pos[i]
            < pos[j]
}

proof fn lemma_bytes_le_reflexive(a: Seq<u8>, i: nat)
    ensures
        bytes_le_from(a, a, i),
    decreases a.len() - i,
{
    if i < a.len() {
        lemma_bytes_le_reflexive(a, i + 1);
    }
}

/// The models sorted by stem (byte order, as Rust orders strings); models
/// with equal stems keep their relative order.
pub fn sort_models_by_name(models: Vec<DiscoveredModel>) -> (r: Vec<DiscoveredModel>)
    ensures
        sorted_by_name(r@),
        exists|pos: Seq<int>| stable_rearrangement(models@, r@, pos),
        r@.to_multiset() == models@.to_multiset(),
        r@.map_values(|m: DiscoveredModel| model_view(m)).to_multiset() == models@.map_values(
            |m: DiscoveredModel| model_view(m),
        ).to_multiset(),
{
    let mut r: Vec<DiscoveredModel> = Vec::new();
    let ghost mut pos: Seq<int> = Seq::empty();
    let mut k: usize = 0;
    assert(models@.subrange(0, 0) =~= r@);
    assert(models@.subrange(0, 0).map_values(|m: DiscoveredModel| model_view(m)) =~= r@.map_values(
        |m: DiscoveredModel| model_view(m),
    ));
    while k < models.len()
        invariant
            k <= models@.len(),
            sorted_by_name(r@),
            pos.len() == r@.len() == k,
            forall|i: int| 0 <= i < pos.len() ==> 0 <= #[trigger] pos[i] < k && r@[i] == models@[pos[i]],
            forall|i: int, j: int| 0 <= i < j < pos.len() ==> #[trigger] pos[i] != #[trigger] pos[j],
            forall|i: int, j: int|
                0 <= i < j < pos.len() && name_key(#[trigger] r@[i]) == name_key(#[trigger] r@[j]) ==> pos[i]
                    < pos[j],
            r@.to_multiset() == models@.subrange(0, k as int).to_multiset(),
            r@.map_values(|m: DiscoveredModel| model_view(m)).to_multiset() == models@.subrange(
                0,
                k as int,
            ).map_values(|m: DiscoveredModel| model_view(m)).to_multiset(),
        decreases models@.len() - k,
    {
        let m = models[k].clone();
        let mut p: usize = 0;
        while p < r.len() && name_le(&r[p], &m)
            invariant
                p <= r@.len(),
                forall|i: int| 0 <= i < p ==> bytes_le(name_key(#[trigger] r@[i]), name_key(m)),
            decreases r@.len() - p,
        {
            p = p + 1;
        }
        let ghost before = r@;
        proof {
            if p < before.len() {
                lemma_bytes_le_total(name_key(m), name_key(before[p as int]), 0);
            }
        }
        let ghost old_pos = pos;
        r.insert(p, m);
        proof {
            pos = pos.insert(p as int, k as int);
            assert forall|j: int| p <= j < before.len() implies name_key(before[j]) != name_key(m) by {
                if name_key(before[j]) == name_key(m) {
                    if j > p {
                        assert(bytes_le(name_key(before[p as int]), name_key(before[j])));
                    } else {
                        lemma_bytes_le_reflexive(name_key(m), 0);
                    }
                }
            }
            assert forall|i: int, j: int|
                0 <= i < j < pos.len() && name_key(#[trigger] r@[i]) == name_key(#[trigger] r@[j]) implies pos[i]
                    < pos[j] by {
                if j < p {
                    assert(r@[i] == before[i] && r@[j] == before[j]);
                    assert(pos[i] == old_pos[i] && pos[j] == old_pos[j]);
                } else if j == p {
                    assert(pos[i] == old_pos[i]);
                } else if i < p {
                    assert(r@[i] == before[i] && r@[j] == before[j - 1]);
                    assert(pos[i] == old_pos[i] && pos[j] == old_pos[j - 1]);
                } else if i == p {
                    assert(r@[j] == before[j - 1]);
                    assert(name_key(before[j - 1]) != name_key(m));
                } else {
                    assert(r@[i] == before[i - 1] && r@[j] == before[j - 1]);
                    assert(pos[i] == old_pos[i - 1] && pos[j] == old_pos[j - 1]);
                }
            }
            assert forall|i: int, j: int| 0 <= i < j < pos.len() implies #[trigger] pos[i] != #[trigger] pos[j] by {
                if j < p {
                    assert(pos[i] == old_pos[i] && pos[j] == old_pos[j]);
                } else if j == p {
                    assert(pos[i] == old_pos[i]);
                } else if i < p {
                    assert(pos[i] == old_pos[i] && pos[j] == old_pos[j - 1]);
                } else if i == p {
                    assert(pos[j] == old_pos[j - 1]);
                } else {
                    assert(pos[i] == old_pos[i - 1] && pos[j] == old_pos[j - 1]);
                }
            }
            assert forall|i: int| 0 <= i < pos.len() implies 0 <= #[trigger] pos[i] < k + 1 && r@[i]
                == models@[pos[i]] by {
                if i < p {
                    assert(pos[i] == old_pos[i] && r@[i] == before[i]);
                } else if i > p {
                    assert(pos[i] == old_pos[i - 1] && r@[i] == before[i - 1]);
                }
            }
        }
        assert(sorted_by_name(r@)) by {
            assert forall|i: int, j: int| 0 <= i < j < r@.len() implies bytes_le(
                name_key(#[trigger] r@[i]),
                name_key(#[trigger] r@[j]),
            ) by {
                if j < p {
                    assert(r@[i] == before[i] && r@[j] == before[j]);
                } else if j == p {
                    assert(r@[i] == before[i]);
                } else if i < p {
                    assert(r@[i] == before[i] && r@[j] == before[j - 1]);
                } else if i == p {
                    assert(r@[j] == before[j - 1]);
                    if j - 1 > p {
                        lemma_bytes_le_transitive(
                            name_key(m),
                            name_key(before[p as int]),
                            name_key(before[j - 1]),
                            0,
                        );
                    }
                } else {
                    assert(r@[i] == before[i - 1] && r@[j] == before[j - 1]);
                }
            }
        }
        proof {
            vstd::seq_lib::to_multiset_insert(before, p as int, m);
            assert(models@.subrange(0, k + 1) =~= models@.subrange(0, k as int).push(models@[k as int]));
            vstd::seq_lib::to_multiset_build(models@.subrange(0, k as int), models@[k as int]);
            let bv = before.map_values(|m: DiscoveredModel| model_view(m));
            assert(r@.map_values(|m: DiscoveredModel| model_view(m)) =~= bv.insert(p as int, model_view(m)));
            vstd::seq_lib::to_multiset_insert(bv, p as int, model_view(m));
            let sv = models@.subrange(0, k as int).map_values(|m: DiscoveredModel| model_view(m));
            assert(models@.subrange(0, k + 1).map_values(|m: DiscoveredModel| model_view(m)) =~= sv.push(
                model_view(models@[k as int]),
            ));
            vstd::seq_lib::to_multiset_build(sv, model_view(models@[k as int]));
        }
        k = k + 1;
    }
    assert(models@.subrange(0, models@.len() as int) =~= models@);
    assert(stable_rearrangement(models@, r@, pos));
    r
}

/// The models of the models directory, given its files: the PLY and
/// MagicaVoxel files (extension compared ignoring ASCII case, kept in lower
/// case), sorted by stem; models with equal stems keep the order of their
/// files.
pub fn discover_models(files: &Vec<ModelFile>) -> (r: Vec<DiscoveredModel>)
    ensures
        sorted_by_name(r@),
        r@.map_values(|m: DiscoveredModel| model_view(m)).to_multiset() == accepted_files(
            files@,
            files@.len() as int,
        ).to_multiset(),
        exists|accepted: Seq<DiscoveredModel>, pos: Seq<int>|
            accepted.map_values(|m: DiscoveredModel| model_view(m)) == accepted_files(
                files@,
                files@.len() as int,
            ) && #[trigger] stable_rearrangement(accepted, r@, pos),
{
    let accepted = accept_model_files(files);
    let ghost a = accepted@;
    let r = sort_models_by_name(accepted);
    proof {
        let pos = choose|pos: Seq<int>| stable_rearrangement(a, r@, pos);
        assert(stable_rearrangement(a, r@, pos));
    }
    r
}

} // verus!
