use vstd::prelude::*;

use vstd::hash_map::StringHashMap;

use crate::tracker::Tracker;

verus! {

broadcast use vstd::string::group_string_axioms;

/// The trackers of `ts` by name, as collecting them into a map gives: where two share a
/// name, the later one is kept.
pub open spec fn by_name(ts: Seq<Tracker>) -> Map<Seq<char>, Tracker>
    decreases ts.len(),
{
    if ts.len() == 0 {
        Map::empty()
    } else {
        by_name(ts.drop_last()).insert(ts.last().spec_name(), ts.last())
    }
}

/// The state the bot shares between commands: its trackers, by name.
pub struct Data {
    trackers: StringHashMap<Tracker>,
}

impl Data {
    /// The trackers by name.
    pub closed spec fn spec_trackers(&self) -> Map<Seq<char>, Tracker> {
        self.trackers@
    }

    /// The trackers by name; where two share a name, the later one is kept.
    pub fn new(trackers: Vec<Tracker>) -> (d: Data)
        ensures
            d.spec_trackers() == by_name(trackers@),
    {
        let mut map: StringHashMap<Tracker> = StringHashMap::new();
        let ghost ts = trackers@;
        let mut i: usize = 0;
        let n = trackers.len();
        let mut rest = trackers;
        while rest.len() > 0
            invariant
                ts.len() == n,
                i + rest@.len() == ts.len(),
                rest@ == ts.skip(i as int),
                map@ == by_name(ts.take(i as int)),
            decreases rest@.len(),
        {
            let t = rest.remove(0);
            let ghost k = i as int;
            assert(t == ts[k]);
            assert(ts.take(k + 1).drop_last() =~= ts.take(k));
            assert(rest@ =~= ts.skip(k + 1));
            let key = t.name().to_owned();
            map.insert(key, t);
            i = i + 1;
        }
        assert(ts.take(ts.len() as int) =~= ts);
        Data { trackers: map }
    }

    /// The tracker named `name`, if there is one.
    pub fn get(&self, name: &str) -> (r: Option<&Tracker>)
        ensures
            match r {
                Some(t) => self.spec_trackers().contains_key(name@) && *t
                    == self.spec_trackers()[name@],
                None => !self.spec_trackers().contains_key(name@),
            },
    {
        self.trackers.get(name)
    }
}

} // verus!
