//! The catalog: the loaded parts, each under its own name.

use vstd::prelude::*;
use crate::parts::Part;

verus! {

/// The catalog of parts, a hash map from the name of a part to the part.
///
/// The map is `bevy::utils::HashMap<String, Part>`, which is the `HashMap` of
/// `hashbrown` with the hasher of `ahash`. The verifier does not look into it:
/// what it holds is known by `table_parts` only, through the functions of this
/// file that call the map and whose contracts are taken on trust.
#[verifier::external_body]
pub struct PartTable {
    map: bevy::utils::HashMap<String, Part>,
}

/// What the catalog holds: the part under each name.
pub uninterp spec fn table_parts(table: PartTable) -> Map<Seq<char>, Part>;

/// A catalog that holds nothing.
pub open spec fn no_parts() -> Map<Seq<char>, Part> {
    Map::empty()
}

impl View for PartTable {
    type V = Map<Seq<char>, Part>;

    open spec fn view(&self) -> Map<Seq<char>, Part> {
        table_parts(*self)
    }
}

/// Makes an empty map. This calls `Default::default` of the map, which makes a
/// map without entries.
#[verifier::external_body]
fn table_new() -> (table: PartTable)
    ensures
        table_parts(table) == no_parts(),
{
    PartTable { map: bevy::utils::HashMap::default() }
}

/// Puts `part` under its name. This calls `HashMap::insert`, after which the
/// map holds the new value under the key, in place of an old one if there was
/// one, and every other entry as before.
#[verifier::external_body]
fn table_insert(table: &mut PartTable, part: Part)
    ensures
        table_parts(*final(table)) == table_parts(*old(table)).insert(part.def.name@, part),
{
    table.map.insert(part.def.name.clone(), part);
}

/// Looks `name` up. This calls `HashMap::get`, which hands out the value under
/// the key, or `None` if the map has no such key.
#[verifier::external_body]
fn table_get<'a>(table: &'a PartTable, name: &String) -> (part: Option<&'a Part>)
    ensures
        part is Some <==> table_parts(*table).contains_key(name@),
        part is Some ==> *part.unwrap() == table_parts(*table)[name@],
{
    table.map.get(name)
}

/// Counts the entries. This calls `HashMap::len`, the number of entries of the
/// map.
#[verifier::external_body]
fn table_len(table: &PartTable) -> (count: usize)
    ensures
        count == table_parts(*table).len(),
{
    table.map.len()
}

/// Walks the map. This calls `HashMap::iter`, which visits every entry once,
/// in an order that is not specified, and collects what it visits.
#[verifier::external_body]
fn table_entries<'a>(table: &'a PartTable) -> (entries: Vec<(&'a String, &'a Part)>)
    ensures
        forall|i: int|
            0 <= i < entries@.len() ==> table_parts(*table).contains_key(
                (#[trigger] entries@[i]).0@,
            ) && table_parts(*table)[entries@[i].0@] == *entries@[i].1,
        forall|i: int, j: int|
            0 <= i < j < entries@.len() ==> (#[trigger] entries@[i]).0@ != (#[trigger] entries@[j]).0@,
        forall|name: Seq<char>|
            table_parts(*table).contains_key(name) ==> exists|i: int|
                0 <= i < entries@.len() && (#[trigger] entries@[i]).0@ == name,
{
    table.map.iter().collect()
}

/// The catalog that holds the parts of `parts`, put in one after the other: of
/// several parts of one name the last is kept.
pub open spec fn collected(parts: Seq<Part>) -> Map<Seq<char>, Part>
    decreases parts.len(),
{
    if parts.len() == 0 {
        no_parts()
    } else {
        collected(parts.drop_last()).insert(parts.last().def.name@, parts.last())
    }
}

/// Whether `parts` lists the parts of the catalog `table`, each once.
pub open spec fn lists_all(table: Map<Seq<char>, Part>, parts: Seq<&Part>) -> bool {
    &&& forall|i: int|
        0 <= i < parts.len() ==> table.contains_key((#[trigger] parts[i]).def.name@) && table[parts[i].def.name@]
            == *parts[i]
    &&& forall|i: int, j: int|
        0 <= i < j < parts.len() ==> (#[trigger] parts[i]).def.name@ != (#[trigger] parts[j]).def.name@
    &&& forall|name: Seq<char>|
        table.contains_key(name) ==> exists|i: int|
            0 <= i < parts.len() && (#[trigger] parts[i]).def.name@ == name
}

/// Whether `parts` lists the chassis of the catalog `table`, each once.
pub open spec fn lists_chassis(table: Map<Seq<char>, Part>, parts: Seq<&Part>) -> bool {
    &&& forall|i: int|
        0 <= i < parts.len() ==> {
            &&& table.contains_key((#[trigger] parts[i]).def.name@)
            &&& table[parts[i].def.name@] == *parts[i]
            &&& parts[i].def.chassis_flag()
        }
    &&& forall|i: int, j: int|
        0 <= i < j < parts.len() ==> (#[trigger] parts[i]).def.name@ != (#[trigger] parts[j]).def.name@
    &&& forall|name: Seq<char>|
        table.contains_key(name) && table[name].def.chassis_flag() ==> exists|i: int|
            0 <= i < parts.len() && (#[trigger] parts[i]).def.name@ == name
}

impl PartTable {
    /// Whether every part of the catalog stands under its own name. The
    /// functions of this file keep it so.
    pub open spec fn wf(&self) -> bool {
        forall|name: Seq<char>| #[trigger] self@.contains_key(name) ==> self@[name].def.name@ == name
    }

    /// An empty catalog.
    pub fn new() -> (table: PartTable)
        ensures
            table@ == no_parts(),
            table.wf(),
    {
        table_new()
    }

    /// Puts `part` into the catalog under its name. A part of the same name
    /// is replaced.
    pub fn insert(&mut self, part: Part)
        requires
            old(self).wf(),
        ensures
            final(self).wf(),
            final(self)@ == old(self)@.insert(part.def.name@, part),
    {
        table_insert(self, part);
    }

    /// The catalog of the parts of `parts`, put in one after the other.
    pub fn from_parts(parts: Vec<Part>) -> (table: PartTable)
        ensures
            table.wf(),
            table@ == collected(parts@),
    {
        let mut table = PartTable::new();
        let mut parts = parts;
        let ghost all = parts@;
        let ghost mut taken: Seq<Part> = Seq::empty();
        // Parts are moved out from the end, so the list is turned round first.
        let mut stack: Vec<Part> = Vec::new();
        while parts.len() > 0
            invariant
                stack@.len() + parts@.len() == all.len(),
                forall|i: int| 0 <= i < parts@.len() ==> parts@[i] == all[i],
                forall|i: int| 0 <= i < stack@.len() ==> stack@[i] == all[all.len() - 1 - i],
            decreases parts@.len(),
        {
            let part = parts.pop().unwrap();
            stack.push(part);
        }
        while stack.len() > 0
            invariant
                table.wf(),
                taken.len() + stack@.len() == all.len(),
                taken == all.take(taken.len() as int),
                forall|i: int| 0 <= i < stack@.len() ==> stack@[i] == all[all.len() - 1 - i],
                table@ == collected(taken),
            decreases stack@.len(),
        {
            let part = stack.pop().unwrap();
            proof {
                let next = all.take(taken.len() as int + 1);
                assert(part == all[taken.len() as int]);
                assert(next.drop_last() =~= taken);
                assert(next.last() == part);
                taken = next;
            }
            table.insert(part);
        }
        proof {
            assert(all.take(all.len() as int) =~= all);
        }
        table
    }

    /// The part named `name`, if the catalog has one.
    pub fn get(&self, name: &String) -> (part: Option<&Part>)
        ensures
            part is Some <==> self@.contains_key(name@),
            part is Some ==> *part.unwrap() == self@[name@],
    {
        table_get(self, name)
    }

    /// The parts of the catalog, each once, in the order in which the map is
    /// walked, which is not specified.
    pub fn values(&self) -> (parts: Vec<&Part>)
        requires
            self.wf(),
        ensures
            lists_all(self@, parts@),
    {
        let entries = table_entries(self);
        let mut parts: Vec<&Part> = Vec::new();
        let mut i: usize = 0;
        while i < entries.len()
            invariant
                i <= entries@.len(),
                parts@.len() == i,
                forall|j: int| 0 <= j < i ==> *(#[trigger] parts@[j]) == *entries@[j].1,
            decreases entries@.len() - i,
        {
            parts.push(entries[i].1);
            i += 1;
        }
        proof {
            assert forall|j: int| 0 <= j < parts@.len() implies (#[trigger] parts@[j]).def.name@
                == entries@[j].0@ by {
                assert(self@.contains_key(entries@[j].0@));
            }
            assert forall|name: Seq<char>| self@.contains_key(name) implies exists|j: int|
                0 <= j < parts@.len() && (#[trigger] parts@[j]).def.name@ == name by {
                let j = choose|j: int| 0 <= j < entries@.len() && (#[trigger] entries@[j]).0@ == name;
                assert(parts@[j].def.name@ == name);
            }
        }
        parts
    }

    /// The number of parts in the catalog.
    pub fn len(&self) -> (n: usize)
        ensures
            n == self@.len(),
    {
        table_len(self)
    }

    /// The parts that are flagged as chassis, each once, in the order in which
    /// the map is walked.
    pub fn chassis_parts(&self) -> (chassis: Vec<&Part>)
        requires
            self.wf(),
        ensures
            lists_chassis(self@, chassis@),
    {
        let parts = self.values();
        let mut chassis: Vec<&Part> = Vec::new();
        let ghost mut from: Seq<int> = Seq::empty();
        let mut i: usize = 0;
        while i < parts.len()
            invariant
                i <= parts@.len(),
                lists_all(self@, parts@),
                from.len() == chassis@.len(),
                forall|t: int| 0 <= t < from.len() ==> 0 <= #[trigger] from[t] < i,
                forall|s: int, t: int| 0 <= s < t < from.len() ==> from[s] < from[t],
                forall|t: int|
                    0 <= t < chassis@.len() ==> *(#[trigger] chassis@[t]) == *parts@[from[t]]
                        && chassis@[t].def.chassis_flag(),
                forall|j: int|
                    0 <= j < i && (#[trigger] parts@[j]).def.chassis_flag() ==> exists|t: int|
                        0 <= t < chassis@.len() && from[t] == j,
            decreases parts@.len() - i,
        {
            if parts[i].def.is_chassis() {
                let ghost before = from;
                chassis.push(parts[i]);
                proof {
                    from = from.push(i as int);
                    assert forall|j: int|
                        0 <= j < i + 1 && (#[trigger] parts@[j]).def.chassis_flag() implies exists|
                        t: int,
                    |
                        0 <= t < chassis@.len() && from[t] == j by {
                        if j < i {
                            let t = choose|t: int| 0 <= t < before.len() && before[t] == j;
                            assert(from[t] == j);
                        } else {
                            assert(from[before.len() as int] == j);
                        }
                    }
                }
            }
            i += 1;
        }
        proof {
            assert forall|s: int, t: int| 0 <= s < t < chassis@.len() implies (
            #[trigger] chassis@[s]).def.name@ != (#[trigger] chassis@[t]).def.name@ by {
                assert(from[s] < from[t]);
                assert(parts@[from[s]].def.name@ != parts@[from[t]].def.name@);
            }
            assert forall|name: Seq<char>|
                self@.contains_key(name) && self@[name].def.chassis_flag() implies exists|t: int|
                0 <= t < chassis@.len() && (#[trigger] chassis@[t]).def.name@ == name by {
                let j = choose|j: int| 0 <= j < parts@.len() && (#[trigger] parts@[j]).def.name@ == name;
                assert(parts@[j].def.chassis_flag());
                let t = choose|t: int| 0 <= t < chassis@.len() && from[t] == j;
                assert(chassis@[t].def.name@ == name);
            }
        }
        chassis
    }
}

} // verus!
