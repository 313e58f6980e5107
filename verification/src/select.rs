//! The data-selection summary the service publishes: which player-state
//! facts (varps, varbits, items, skills) the loaded grid's requirements ever
//! consult, so clients know what to send.

use vstd::prelude::*;

verus! {

/// The kinds of player-state data the grid's requirements consult.
#[derive(Debug)]
pub struct DataSelection {
    pub varps: Vec<u32>,
    pub varbits: Vec<u32>,
    pub items: Vec<String>,
    pub skills: Vec<String>,
}

fn clone_u32s(v: &Vec<u32>) -> (r: Vec<u32>)
    ensures
        r@ == v@,
{
    let mut r: Vec<u32> = Vec::new();
    let n = v.len();
    let mut i: usize = 0;
    while i < n
        invariant
            n == v@.len(),
            0 <= i <= n,
            r@ == v@.take(i as int),
        decreases n - i,
    {
        r.push(v[i]);
        proof {
            assert(r@ =~= v@.take(i + 1));
        }
        i = i + 1;
    }
    proof {
        assert(v@.take(n as int) =~= v@);
    }
    r
}

fn clone_strings(v: &Vec<String>) -> (r: Vec<String>)
    ensures
        r@ == v@,
{
    let mut r: Vec<String> = Vec::new();
    let n = v.len();
    let mut i: usize = 0;
    while i < n
        invariant
            n == v@.len(),
            0 <= i <= n,
            r@ == v@.take(i as int),
        decreases n - i,
    {
        let s = v[i].clone();
        r.push(s);
        proof {
            assert(r@ =~= v@.take(i + 1));
        }
        i = i + 1;
    }
    proof {
        assert(v@.take(n as int) =~= v@);
    }
    r
}

/// Answer a selection query: hand back a copy of the tracked selection.
pub fn handle_select_request(tracked_varps: &DataSelection) -> (r: DataSelection)
    ensures
        r.varps@ == tracked_varps.varps@,
        r.varbits@ == tracked_varps.varbits@,
        r.items@ == tracked_varps.items@,
        r.skills@ == tracked_varps.skills@,
{
    DataSelection {
        varps: clone_u32s(&tracked_varps.varps),
        varbits: clone_u32s(&tracked_varps.varbits),
        items: clone_strings(&tracked_varps.items),
        skills: clone_strings(&tracked_varps.skills),
    }
}

} // verus!
