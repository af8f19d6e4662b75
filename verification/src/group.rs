use vstd::prelude::*;

verus! {

use crate::Time;
use crate::heartbeat::clone_tag;
use crate::heartbeat::tag_view;

/// Adjacency grouping: consecutive items with equal keys form one group, in
/// order; when a key reappears after an intervening different key it starts
/// a new, separate group. Keys are kept as they were observed (`None` and
/// `Some("")` are distinct keys).
pub open spec fn run_groups(items: Seq<(Option<Seq<char>>, Time)>) -> Seq<
    (Option<Seq<char>>, Seq<Time>),
>
    decreases items.len(),
{
    if items.len() == 0 {
        Seq::empty()
    } else {
        let init = run_groups(items.drop_last());
        let k = items.last().0;
        let t = items.last().1;
        if items.len() >= 2 && items[items.len() - 2].0 == k {
            init.update(init.len() - 1, (k, init.last().1.push(t)))
        } else {
            init.push((k, seq![t]))
        }
    }
}

/// Grouping a non-empty list yields at least one group, and the last group
/// carries the key of the last item.
pub proof fn lemma_run_groups_last(items: Seq<(Option<Seq<char>>, Time)>)
    requires
        items.len() > 0,
    ensures
        run_groups(items).len() > 0,
        run_groups(items).last().0 == items.last().0,
    decreases items.len(),
{
    if items.len() >= 2 {
        lemma_run_groups_last(items.drop_last());
    }
}

/// A missing tag is reported as the empty string in a group's key.
pub open spec fn unwrap_key(k: Option<Seq<char>>) -> Seq<char> {
    match k {
        Some(s) => s,
        None => Seq::empty(),
    }
}

/// The emitted form of the groups: each key unwrapped to a string.
pub open spec fn unwrap_groups(gs: Seq<(Option<Seq<char>>, Seq<Time>)>) -> Seq<
    (Seq<char>, Seq<Time>),
> {
    gs.map_values(|g: (Option<Seq<char>>, Seq<Time>)| (unwrap_key(g.0), g.1))
}

/// The view of an emitted group list.
pub open spec fn groups_view(v: Seq<(String, Vec<Time>)>) -> Seq<(Seq<char>, Seq<Time>)> {
    v.map_values(|p: (String, Vec<Time>)| (p.0@, p.1@))
}

/// The view of a keyed item list.
pub open spec fn pairs_view(v: Seq<(Option<String>, Time)>) -> Seq<(Option<Seq<char>>, Time)> {
    v.map_values(|p: (Option<String>, Time)| (tag_view(p.0), p.1))
}

/// Decides equality of two optional tags.
pub fn tag_eq(a: &Option<String>, b: &Option<String>) -> (r: bool)
    ensures
        r == (tag_view(*a) == tag_view(*b)),
{
    match (a, b) {
        (None, None) => true,
        (Some(x), Some(y)) => *x == *y,
        _ => false,
    }
}

/// Groups keyed times by contiguous runs of equal keys, in arrival order,
/// unwrapping each run's key (a missing tag becomes the empty string).
pub fn group_adjacent(pairs: Vec<(Option<String>, Time)>) -> (r: Vec<(String, Vec<Time>)>)
    ensures
        groups_view(r@) == unwrap_groups(run_groups(pairs_view(pairs@))),
{
    let ghost pv = pairs_view(pairs@);
    let mut out: Vec<(String, Vec<Time>)> = Vec::new();
    let mut i: usize = 0;
    assert(pv.take(0) =~= Seq::<(Option<Seq<char>>, Time)>::empty());
    while i < pairs.len()
        invariant
            0 <= i <= pairs@.len(),
            pv == pairs_view(pairs@),
            groups_view(out@) == unwrap_groups(run_groups(pv.take(i as int))),
            out@.len() == run_groups(pv.take(i as int)).len(),
        decreases pairs@.len() - i,
    {
        let t = pairs[i].1;
        proof {
            assert(pv.take(i + 1).drop_last() =~= pv.take(i as int));
            assert(pv.take(i + 1).last() == pv[i as int]);
        }
        let ghost init = run_groups(pv.take(i as int));
        let ghost next = run_groups(pv.take(i + 1));
        if i > 0 && tag_eq(&pairs[i - 1].0, &pairs[i].0) {
            proof {
                assert(pv.take(i + 1)[i - 1] == pv[i - 1]);
                lemma_run_groups_last(pv.take(i as int));
                assert(next == init.update(
                    init.len() - 1,
                    (pv[i as int].0, init.last().1.push(t)),
                ));
            }
            let ghost prev_out = out@;
            let mut g = out.pop().unwrap();
            g.1.push(t);
            out.push(g);
            proof {
                let ov = groups_view(out@);
                let un = unwrap_groups(next);
                let last = prev_out.len() - 1;
                assert(prev_out.len() == init.len());
                assert(groups_view(prev_out)[last] == unwrap_groups(init)[last]);
                assert(groups_view(prev_out)[last] == (prev_out[last].0@, prev_out[last].1@));
                assert(g.0 == prev_out[last].0 && g.1@ == prev_out[last].1@.push(t));
                assert(g.0@ == unwrap_key(init.last().0));
                assert(init.last().0 == pv[i - 1].0);
                assert(g.1@ == init.last().1.push(t));
                assert forall|j: int| 0 <= j < ov.len() implies ov[j] == un[j] by {
                    if j < ov.len() - 1 {
                        assert(out@[j] == prev_out[j]);
                        assert(ov[j] == groups_view(prev_out)[j]);
                        assert(un[j] == unwrap_groups(init)[j]);
                    } else {
                        assert(out@[j] == (g.0, g.1));
                    }
                }
                assert(ov =~= un);
            }
        } else {
            proof {
                if i > 0 {
                    assert(pv.take(i + 1)[i - 1] == pv[i - 1]);
                }
                assert(next == init.push((pv[i as int].0, seq![t])));
            }
            let ghost prev_out = out@;
            let key = match clone_tag(&pairs[i].0) {
                Some(s) => s,
                None => String::new(),
            };
            let mut times: Vec<Time> = Vec::new();
            times.push(t);
            out.push((key, times));
            proof {
                let ov = groups_view(out@);
                let un = unwrap_groups(next);
                assert(key@ == unwrap_key(pv[i as int].0));
                assert(times@ =~= seq![t]);
                assert forall|j: int| 0 <= j < ov.len() implies ov[j] == un[j] by {
                    if j < ov.len() - 1 {
                        assert(out@[j] == prev_out[j]);
                        assert(ov[j] == groups_view(prev_out)[j]);
                        assert(un[j] == unwrap_groups(init)[j]);
                    } else {
                        assert(out@[j] == (key, times));
                    }
                }
                assert(ov =~= un);
            }
        }
        i += 1;
    }
    proof {
        assert(pv.take(pairs@.len() as int) =~= pv);
    }
    out
}

} // verus!
