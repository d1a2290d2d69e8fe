//! The settings a step runs with: environment variables and working directory,
//! each layer overriding the one before it.
use vstd::prelude::*;
use crate::workflow::EnvVars;

verus! {

/// The variables that `e` sets: a later entry for a key overrides an earlier one.
pub open spec fn env_map(e: Seq<(String, String)>) -> Map<Seq<char>, Seq<char>>
    decreases e.len(),
{
    if e.len() == 0 {
        Map::empty()
    } else {
        env_map(e.drop_last()).insert(e.last().0@, e.last().1@)
    }
}

/// The variables of an optional layer; an absent layer sets none.
pub open spec fn layer_map(e: Option<EnvVars>) -> Map<Seq<char>, Seq<char>> {
    match e {
        Some(v) => env_map(v@),
        None => Map::empty(),
    }
}

/// No key appears twice.
pub open spec fn keys_unique(e: Seq<(String, String)>) -> bool {
    forall|i: int, j: int|
        0 <= i < e.len() && 0 <= j < e.len() && i != j ==> #[trigger] e[i].0@ != #[trigger] e[j].0@
}

/// With unique keys, each entry's value is the one set, and every key set has an entry.
proof fn lemma_env_map_entries(e: Seq<(String, String)>)
    ensures
        forall|k: Seq<char>| #[trigger] env_map(e).contains_key(k) ==> exists|i: int| 0 <= i < e.len() && e[i].0@ == k,
        keys_unique(e) ==> forall|i: int| 0 <= i < e.len() ==> #[trigger] env_map(e).contains_key(e[i].0@)
            && env_map(e)[e[i].0@] == e[i].1@,
    decreases e.len(),
{
    if e.len() > 0 {
        let d = e.drop_last();
        lemma_env_map_entries(d);
        assert forall|k: Seq<char>| #[trigger] env_map(e).contains_key(k) implies exists|i: int| 0 <= i < e.len() && e[i].0@ == k by {
            if k != e.last().0@ {
                assert(env_map(d).contains_key(k));
                let i = choose|i: int| 0 <= i < d.len() && d[i].0@ == k;
                assert(e[i] == d[i]);
            }
        }
        if keys_unique(e) {
            assert(keys_unique(d)) by {
                assert forall|i: int, j: int| 0 <= i < d.len() && 0 <= j < d.len() && i != j implies #[trigger] d[i].0@ != #[trigger] d[j].0@ by {
                    assert(e[i] == d[i] && e[j] == d[j]);
                }
            }
            assert forall|i: int| 0 <= i < e.len() implies #[trigger] env_map(e).contains_key(e[i].0@)
                && env_map(e)[e[i].0@] == e[i].1@ by {
                if i < e.len() - 1 {
                    assert(e[i] == d[i]);
                    assert(e[i].0@ != e[e.len() - 1].0@);
                }
            }
        }
    }
}

/// Sets `key` to `value` in `e`: replaces its entry, or adds one at the end.
fn set_var(e: &mut EnvVars, key: &String, value: &String)
    requires
        keys_unique(old(e)@),
    ensures
        keys_unique(final(e)@),
        env_map(final(e)@) == env_map(old(e)@).insert(key@, value@),
{
    let ghost e0 = e@;
    proof {
        lemma_env_map_entries(e0);
    }
    let mut i: usize = 0;
    while i < e.len()
        invariant
            e@ == e0,
            old(e)@ == e0,
            keys_unique(e0),
            i <= e.len(),
            forall|a: int| 0 <= a < i ==> #[trigger] e0[a].0@ != key@,
        decreases e.len() - i,
    {
        if e[i].0 == *key {
            let k2 = key.clone();
            let v2 = value.clone();
            e.set(i, (k2, v2));
            proof {
                let e1 = e@;
                lemma_env_map_entries(e0);
                assert(e1 == e0.update(i as int, (k2, v2)));
                assert(e0[i as int].0@ == key@);
                assert forall|a: int| 0 <= a < e1.len() implies #[trigger] e1[a].0@ == e0[a].0@ by {}
                assert forall|a: int, b: int| 0 <= a < e1.len() && 0 <= b < e1.len() && a != b implies #[trigger] e1[a].0@ != #[trigger] e1[b].0@ by {
                    assert(e1[a].0@ == e0[a].0@);
                    assert(e1[b].0@ == e0[b].0@);
                }
                lemma_env_map_entries(e1);
                assert forall|k: Seq<char>| env_map(e1).contains_key(k) <==> env_map(e0).insert(key@, value@).contains_key(k) by {
                    if env_map(e0).contains_key(k) {
                        let a = choose|a: int| 0 <= a < e0.len() && e0[a].0@ == k;
                        assert(e1[a].0@ == k);
                    }
                    if env_map(e1).contains_key(k) {
                        let a = choose|a: int| 0 <= a < e1.len() && e1[a].0@ == k;
                        assert(e0[a].0@ == k);
                    }
                }
                assert forall|k: Seq<char>| #[trigger] env_map(e1).contains_key(k) implies env_map(e1)[k] == env_map(e0).insert(key@, value@)[k] by {
                    let a = choose|a: int| 0 <= a < e1.len() && e1[a].0@ == k;
                    assert(e0[a].0@ == k);
                }
                assert(env_map(e1) =~= env_map(e0).insert(key@, value@));
            }
            return;
        }
        i += 1;
    }
    let k2 = key.clone();
    let v2 = value.clone();
    e.push((k2, v2));
    proof {
        let e1 = e@;
        assert(e1.drop_last() =~= e0);
        assert forall|a: int, b: int| 0 <= a < e1.len() && 0 <= b < e1.len() && a != b implies #[trigger] e1[a].0@ != #[trigger] e1[b].0@ by {
            if a < e0.len() && b < e0.len() {
                assert(e1[a] == e0[a] && e1[b] == e0[b]);
            } else if a < e0.len() {
                assert(e1[a] == e0[a]);
            } else {
                assert(e1[b] == e0[b]);
            }
        }
    }
}

/// Applies the entries of `layer` over `e`, in order.
fn apply_layer(e: &mut EnvVars, layer: &Option<EnvVars>)
    requires
        keys_unique(old(e)@),
    ensures
        keys_unique(final(e)@),
        env_map(final(e)@) == env_map(old(e)@).union_prefer_right(layer_map(*layer)),
{
    let ghost e0 = e@;
    match layer {
        None => {
            assert(env_map(e0).union_prefer_right(Map::empty()) =~= env_map(e0));
        },
        Some(v) => {
            let mut i: usize = 0;
            while i < v.len()
                invariant
                    i <= v.len(),
                    keys_unique(e@),
                    env_map(e@) == env_map(e0).union_prefer_right(env_map(v@.take(i as int))),
                decreases v.len() - i,
            {
                let ghost before = e@;
                set_var(e, &v[i].0, &v[i].1);
                proof {
                    let t = v@.take(i + 1);
                    assert(t.drop_last() =~= v@.take(i as int));
                    assert(env_map(e@) =~= env_map(e0).union_prefer_right(env_map(t)));
                }
                i += 1;
            }
            assert(v@.take(v.len() as int) =~= v@);
        },
    }
}

/// The environment of a step: the workflow's variables, overridden by the job's,
/// overridden by the step's. Each key appears once.
pub fn resolve_env(workflow_env: &Option<EnvVars>, job_env: &Option<EnvVars>, step_env: &Option<EnvVars>) -> (r: EnvVars)
    ensures
        keys_unique(r@),
        env_map(r@) == layer_map(*workflow_env).union_prefer_right(layer_map(*job_env)).union_prefer_right(
            layer_map(*step_env),
        ),
{
    let mut e: EnvVars = Vec::new();
    assert(env_map(e@) =~= Map::empty());
    apply_layer(&mut e, workflow_env);
    assert(Map::<Seq<char>, Seq<char>>::empty().union_prefer_right(layer_map(*workflow_env)) =~= layer_map(*workflow_env));
    apply_layer(&mut e, job_env);
    apply_layer(&mut e, step_env);
    e
}

/// The view of an optional string.
pub open spec fn opt_view(s: Option<String>) -> Option<Seq<char>> {
    match s {
        Some(x) => Some(x@),
        None => None,
    }
}

/// The directory a step runs in: its own if set, else its job's; `None` keeps the
/// current directory.
pub fn resolve_working_dir(job_dir: &Option<String>, step_dir: &Option<String>) -> (r: Option<String>)
    ensures
        opt_view(r) == (if step_dir.is_some() { opt_view(*step_dir) } else { opt_view(*job_dir) }),
{
    match step_dir {
        Some(d) => Some(d.clone()),
        None => match job_dir {
            Some(d) => Some(d.clone()),
            None => None,
        },
    }
}

} // verus!
