//! Decisions the application makes about which models are loaded and how
//! persisted settings are applied to the current scene.
use crate::model::DiscoveredModel;
use crate::render_types::SnapshotModelSelection;
use crate::vox::round_up_to_8;
use vstd::prelude::*;

verus! {

/// Key of a model in persisted settings: `name.extension`.
pub open spec fn model_key_of(m: DiscoveredModel) -> Seq<char> {
    m.name@ + "."@ + m.extension@
}

/// Key under which a model is persisted: its name and extension joined by a dot.
pub fn model_key(model: &DiscoveredModel) -> (k: String)
    ensures
        k@ == model_key_of(*model),
{
    let mut k = model.name.clone();
    k.append(".");
    k.append(model.extension.as_str());
    k
}

/// Index of the first model of `available[from..]` whose key is `key`.
pub open spec fn first_with_key(available: Seq<DiscoveredModel>, key: Seq<char>, from: int) -> Option<int>
    decreases available.len() - from,
{
    if from >= available.len() || from < 0 {
        None
    } else if model_key_of(available[from]) == key {
        Some(from)
    } else {
        first_with_key(available, key, from + 1)
    }
}

/// The models named by the first `n` keys, in key order; a key that names no
/// available model is skipped.
pub open spec fn models_for_keys(available: Seq<DiscoveredModel>, keys: Seq<String>, n: int) -> Seq<
    DiscoveredModel,
>
    decreases n,
{
    if n <= 0 {
        Seq::empty()
    } else {
        let prev = models_for_keys(available, keys, n - 1);
        match first_with_key(available, keys[n - 1]@, 0) {
            Some(i) => prev.push(available[i]),
            None => prev,
        }
    }
}

fn find_model(available: &Vec<DiscoveredModel>, key: &String) -> (r: Option<usize>)
    ensures
        match r {
            Some(i) => i < available@.len() && first_with_key(available@, key@, 0) == Some(i as int),
            None => first_with_key(available@, key@, 0) is None,
        },
{
    let mut i: usize = 0;
    while i < available.len()
        invariant
            i <= available@.len(),
            first_with_key(available@, key@, 0) == first_with_key(available@, key@, i as int),
        decreases available@.len() - i,
    {
        let k = model_key(&available[i]);
        if k == *key {
            return Some(i);
        }
        i = i + 1;
    }
    None
}

/// The available models named by persisted keys, in key order, skipping keys
/// of models that are no longer available.
pub fn models_from_keys(available: &Vec<DiscoveredModel>, keys: &Vec<String>) -> (r: Vec<
    DiscoveredModel,
>)
    ensures
        r@ == models_for_keys(available@, keys@, keys@.len() as int),
{
    let mut out: Vec<DiscoveredModel> = Vec::new();
    let mut n: usize = 0;
    while n < keys.len()
        invariant
            n <= keys@.len(),
            out@ == models_for_keys(available@, keys@, n as int),
        decreases keys@.len() - n,
    {
        let found = find_model(available, &keys[n]);
        if let Some(i) = found {
            out.push(available[i].clone());
        }
        n = n + 1;
    }
    out
}

/// A persisted resolution raised to at least 8 and rounded up to a multiple of 8.
pub open spec fn snapped_resolution(r: u32) -> int {
    round_up_to_8(if r >= 8 {
        r as int
    } else {
        8
    })
}

/// Apply persisted per-grid resolutions over the current ones: each grid
/// with a persisted value takes it, snapped; the others keep their value.
pub fn snap_persisted_resolutions(current: &Vec<u32>, saved: &Vec<u32>) -> (r: Vec<u32>)
    requires
        forall|i: int| 0 <= i < current@.len() && i < saved@.len() ==> #[trigger] saved@[i] <= u32::MAX - 7,
    ensures
        r@.len() == current@.len(),
        forall|i: int|
            0 <= i < r@.len() ==> #[trigger] r@[i] == if i < saved@.len() {
                snapped_resolution(saved@[i])
            } else {
                current@[i] as int
            },
{
    let mut out: Vec<u32> = Vec::new();
    let mut i: usize = 0;
    while i < current.len()
        invariant
            i <= current@.len(),
            forall|j: int| 0 <= j < current@.len() && j < saved@.len() ==> #[trigger] saved@[j] <= u32::MAX - 7,
            out@.len() == i,
            forall|j: int|
                0 <= j < i ==> #[trigger] out@[j] == if j < saved@.len() {
                    snapped_resolution(saved@[j])
                } else {
                    current@[j] as int
                },
        decreases current@.len() - i,
    {
        if i < saved.len() {
            let src = saved[i];
            let raised = if src >= 8 {
                src
            } else {
                8
            };
            out.push((raised + 7) / 8 * 8);
        } else {
            out.push(current[i]);
        }
        i = i + 1;
    }
    out
}

/// Number of active grids clamped to `1..=model_count + 1` (the models and the ground).
pub fn clamp_active_grids(requested: u32, model_count: usize) -> (r: u32)
    requires
        model_count < u32::MAX,
    ensures
        r == if requested < 1 {
            1
        } else if requested > model_count + 1 {
            model_count + 1
        } else {
            requested as int
        },
{
    let max_grids = (model_count + 1) as u32;
    if requested < 1 {
        1
    } else if requested > max_grids {
        max_grids
    } else {
        requested
    }
}

/// A character with ASCII `A`..`Z` mapped to `a`..`z`.
pub open spec fn ascii_lower_char(c: char) -> char {
    let v = c as u32;
    if 65 <= v <= 90 {
        (v + 32) as char
    } else {
        c
    }
}

/// A string with ASCII upper-case letters mapped to lower case.
pub open spec fn ascii_lower(s: Seq<char>) -> Seq<char> {
    s.map_values(|c: char| ascii_lower_char(c))
}

/// `str::to_ascii_lowercase`: a copy of `s` in which ASCII `A`..`Z` become
/// `a`..`z` and every other character is kept.
#[verifier::external_body]
pub(crate) fn ascii_lowercase(s: &str) -> (r: String)
    ensures
        r@ == ascii_lower(s@),
{
    s.to_ascii_lowercase()
}

/// Whether one of `names` names model `m`, ignoring ASCII case: by its
/// stem, or by its file name (`name.extension`).
pub open spec fn snapshot_wants(m: DiscoveredModel, names: Seq<&str>) -> bool {
    exists|j: int|
        0 <= j < names.len() && (ascii_lower(#[trigger] names[j]@) == ascii_lower(m.name@) || ascii_lower(
            names[j]@,
        ) == ascii_lower(model_key_of(m)))
}

/// The models among the first `n` of `available` that `names` asks for, in order.
pub open spec fn models_wanted(available: Seq<DiscoveredModel>, names: Seq<&str>, n: int) -> Seq<
    DiscoveredModel,
>
    decreases n,
{
    if n <= 0 {
        Seq::empty()
    } else {
        let prev = models_wanted(available, names, n - 1);
        if snapshot_wants(available[n - 1], names) {
            prev.push(available[n - 1])
        } else {
            prev
        }
    }
}

fn contains_string(wanted: &Vec<String>, s: &String) -> (b: bool)
    ensures
        b == exists|j: int| 0 <= j < wanted@.len() && #[trigger] wanted@[j]@ == s@,
{
    let mut j: usize = 0;
    while j < wanted.len()
        invariant
            j <= wanted@.len(),
            forall|k: int| 0 <= k < j ==> #[trigger] wanted@[k]@ != s@,
        decreases wanted@.len() - j,
    {
        if wanted[j] == *s {
            assert(wanted@[j as int]@ == s@);
            return true;
        }
        j = j + 1;
    }
    false
}

/// The models an off-screen snapshot loads: `None` for every discovered
/// model, or the available models that one of the names asks for (by stem
/// or file name, ignoring ASCII case), in their order.
pub fn select_snapshot_models(available: &Vec<DiscoveredModel>, selection: SnapshotModelSelection) -> (r:
    Option<Vec<DiscoveredModel>>)
    ensures
        selection is All ==> r is None,
        selection matches SnapshotModelSelection::Named(names) ==> r matches Some(v) && v@
            == models_wanted(available@, names@, available@.len() as int),
{
    match selection {
        SnapshotModelSelection::All => None,
        SnapshotModelSelection::Named(names) => {
            let mut wanted: Vec<String> = Vec::new();
            let mut j: usize = 0;
            while j < names.len()
                invariant
                    j <= names@.len(),
                    wanted@.len() == j,
                    forall|k: int| 0 <= k < j ==> #[trigger] wanted@[k]@ == ascii_lower(names@[k]@),
                decreases names@.len() - j,
            {
                wanted.push(ascii_lowercase(names[j]));
                j = j + 1;
            }
            let mut out: Vec<DiscoveredModel> = Vec::new();
            let mut i: usize = 0;
            while i < available.len()
                invariant
                    i <= available@.len(),
                    wanted@.len() == names@.len(),
                    forall|k: int| 0 <= k < names@.len() ==> #[trigger] wanted@[k]@ == ascii_lower(names@[k]@),
                    out@ == models_wanted(available@, names@, i as int),
                decreases available@.len() - i,
            {
                let m = &available[i];
                let stem = ascii_lowercase(m.name.as_str());
                let key = model_key(m);
                let file_name = ascii_lowercase(key.as_str());
                let hit = contains_string(&wanted, &stem) || contains_string(&wanted, &file_name);
                assert(hit == snapshot_wants(available@[i as int], names@)) by {
                    if hit {
                        let j = choose|j: int|
                            0 <= j < wanted@.len() && (#[trigger] wanted@[j]@ == stem@ || wanted@[j]@
                                == file_name@);
                        assert(names@[j]@ == names@[j]@);
                    }
                    if snapshot_wants(available@[i as int], names@) {
                        let j = choose|j: int|
                            0 <= j < names@.len() && (ascii_lower(#[trigger] names@[j]@) == ascii_lower(
                                available@[i as int].name@,
                            ) || ascii_lower(names@[j]@) == ascii_lower(model_key_of(available@[i as int])));
                        assert(wanted@[j]@ == ascii_lower(names@[j]@));
                    }
                }
                if hit {
                    out.push(available[i].clone());
                }
                i = i + 1;
            }
            Some(out)
        },
    }
}

/// The indices of `v` in increasing order, each once.
pub fn sorted_unique_indices(v: &Vec<usize>) -> (r: Vec<usize>)
    ensures
        forall|i: int, j: int| 0 <= i < j < r@.len() ==> r@[i] < r@[j],
        forall|x: usize| r@.contains(x) <==> v@.contains(x),
{
    let mut r: Vec<usize> = Vec::new();
    let mut k: usize = 0;
    while k < v.len()
        invariant
            k <= v@.len(),
            forall|i: int, j: int| 0 <= i < j < r@.len() ==> r@[i] < r@[j],
            forall|x: usize| r@.contains(x) <==> v@.subrange(0, k as int).contains(x),
        decreases v@.len() - k,
    {
        let x = v[k];
        let mut p: usize = 0;
        while p < r.len() && r[p] < x
            invariant
                p <= r@.len(),
                forall|i: int| 0 <= i < p ==> r@[i] < x,
            decreases r@.len() - p,
        {
            p = p + 1;
        }
        let ghost before = r@;
        assert(v@.subrange(0, k + 1) =~= v@.subrange(0, k as int).push(x));
        assert forall|y: usize|
            v@.subrange(0, k + 1).contains(y) <==> (v@.subrange(0, k as int).contains(y) || y == x) by {
            let s0 = v@.subrange(0, k as int);
            let s1 = s0.push(x);
            if s1.contains(y) {
                let i = choose|i: int| 0 <= i < s1.len() && s1[i] == y;
                if i < s0.len() {
                    assert(s0[i] == y);
                }
            }
            if s0.contains(y) {
                let i = choose|i: int| 0 <= i < s0.len() && s0[i] == y;
                assert(s1[i] == y);
            }
            if y == x {
                assert(s1[k as int] == y);
            }
        }
        if p < r.len() && r[p] == x {
            assert(before.contains(x));
        } else {
            r.insert(p, x);
            assert forall|y: usize| r@.contains(y) <==> (before.contains(y) || y == x) by {
                if r@.contains(y) {
                    let i = choose|i: int| 0 <= i < r@.len() && r@[i] == y;
                    if i < p {
                        assert(before[i] == y);
                    } else if i > p {
                        assert(before[i - 1] == y);
                    }
                }
                if before.contains(y) {
                    let i = choose|i: int| 0 <= i < before.len() && before[i] == y;
                    if i < p {
                        assert(r@[i] == y);
                    } else {
                        assert(r@[i + 1] == y);
                    }
                }
                if y == x {
                    assert(r@[p as int] == y);
                }
            }
            assert forall|i: int, j: int| 0 <= i < j < r@.len() implies r@[i] < r@[j] by {
                if j < p {
                } else if j == p {
                } else if i < p {
                    assert(before[j - 1] >= x);
                    assert(before[j - 1] != x || j - 1 != p);
                } else if i == p {
                    assert(before[p as int] > x) by {
                        assert(before[p as int] >= x);
                    }
                    if j - 1 > p {
                        assert(before[p as int] < before[j - 1]);
                    }
                } else {
                }
            }
        }
        assert forall|y: usize| r@.contains(y) <==> v@.subrange(0, k + 1).contains(y) by {
            assert(before.contains(y) <==> v@.subrange(0, k as int).contains(y));
        }
        k = k + 1;
    }
    assert(v@.subrange(0, v@.len() as int) =~= v@);
    r
}

/// Every model of `available` has a key of its own.
pub open spec fn keys_unique(available: Seq<DiscoveredModel>) -> bool {
    forall|i: int, j: int|
        0 <= i < j < available.len() ==> model_key_of(#[trigger] available[i]) != model_key_of(
            #[trigger] available[j],
        )
}

proof fn lemma_first_with_key_is_the_match(available: Seq<DiscoveredModel>, j: int, from: int)
    requires
        keys_unique(available),
        0 <= from <= j < available.len(),
    ensures
        first_with_key(available, model_key_of(available[j]), from) == Some(j),
    decreases j - from,
{
    if from < j {
        assert(model_key_of(available[from]) != model_key_of(available[j]));
        lemma_first_with_key_is_the_match(available, j, from + 1);
    }
}

/// Keys saved for loaded models bring back exactly those models, in order,
/// when each loaded model is still available and keys tell models apart.
pub proof fn lemma_saved_keys_restore_models(
    available: Seq<DiscoveredModel>,
    loaded: Seq<DiscoveredModel>,
    keys: Seq<String>,
)
    requires
        keys_unique(available),
        forall|k: int| 0 <= k < loaded.len() ==> available.contains(#[trigger] loaded[k]),
        keys.len() == loaded.len(),
        forall|k: int| 0 <= k < keys.len() ==> #[trigger] keys[k]@ == model_key_of(loaded[k]),
    ensures
        models_for_keys(available, keys, keys.len() as int) == loaded,
    decreases keys.len(),
{
    if keys.len() > 0 {
        let n = keys.len() - 1;
        lemma_saved_keys_restore_models(available, loaded.drop_last(), keys.drop_last());
        assert forall|m: int| 0 <= m <= n implies models_for_keys(available, keys, m) == models_for_keys(
            available,
            keys.drop_last(),
            m,
        ) by {
            lemma_models_for_keys_prefix(available, keys, keys.drop_last(), m);
        }
        assert(available.contains(loaded[n]));
        let j = choose|j: int| 0 <= j < available.len() && available[j] == loaded[n];
        lemma_first_with_key_is_the_match(available, j, 0);
        assert(keys[n]@ == model_key_of(available[j]));
        assert(models_for_keys(available, keys, n) == loaded.drop_last());
        assert(models_for_keys(available, keys, n + 1) == models_for_keys(available, keys, n).push(
            available[j],
        ));
        assert(loaded.drop_last().push(loaded[n]) =~= loaded);
    } else {
        assert(loaded =~= Seq::<DiscoveredModel>::empty());
    }
}

proof fn lemma_models_for_keys_prefix(
    available: Seq<DiscoveredModel>,
    keys: Seq<String>,
    prefix: Seq<String>,
    m: int,
)
    requires
        0 <= m <= prefix.len() <= keys.len(),
        forall|k: int| 0 <= k < prefix.len() ==> #[trigger] prefix[k] == keys[k],
    ensures
        models_for_keys(available, keys, m) == models_for_keys(available, prefix, m),
    decreases m,
{
    if m > 0 {
        lemma_models_for_keys_prefix(available, keys, prefix, m - 1);
        assert(prefix[m - 1] == keys[m - 1]);
    }
}

/// A snapped resolution stays as it is when snapped again, so applying
/// saved resolutions twice gives what applying them once gives.
pub proof fn lemma_snapping_is_idempotent(r: u32)
    requires
        r <= u32::MAX - 7,
    ensures
        snapped_resolution(r) <= u32::MAX,
        snapped_resolution(snapped_resolution(r) as u32) == snapped_resolution(r),
{
}

} // verus!
