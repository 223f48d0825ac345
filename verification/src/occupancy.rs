use std::collections::HashMap;
use vstd::prelude::*;

verus! {

/// The persons in a list, as a set.
pub open spec fn person_set(persons: Seq<u64>) -> Set<u64> {
    Set::new(|p: u64| persons.contains(p))
}

/// No person occurs twice in the list.
pub open spec fn no_repeats(persons: Seq<u64>) -> bool {
    forall|a: int, b: int| 0 <= a < b < persons.len() ==> persons[a] != persons[b]
}

/// The persons sitting in a vehicle according to a map of vehicles to their occupants; none
/// when the map does not know the vehicle.
pub open spec fn occupants(occ: Map<u64, Set<u64>>, vehicle: u64) -> Set<u64> {
    if occ.contains_key(vehicle) {
        occ[vehicle]
    } else {
        Set::empty()
    }
}

/// Which persons sit in which vehicle, by vehicle id.
#[derive(Debug)]
pub struct VehicleOccupancy {
    pub vehicles: HashMap<u64, Vec<u64>>,
}

impl View for VehicleOccupancy {
    type V = Map<u64, Set<u64>>;

    open spec fn view(&self) -> Map<u64, Set<u64>> {
        Map::new(|v: u64| self.vehicles@.contains_key(v), |v: u64| person_set(self.vehicles@[v]@))
    }
}

/// Whether `x` is among the persons.
fn contains_person(persons: &Vec<u64>, x: u64) -> (r: Option<usize>)
    ensures
        r is None <==> !persons@.contains(x),
        r matches Some(i) ==> i < persons@.len() && persons@[i as int] == x,
{
    let mut i: usize = 0;
    while i < persons.len()
        invariant
            i <= persons@.len(),
            forall|k: int| 0 <= k < i ==> persons@[k] != x,
        decreases persons.len() - i,
    {
        if persons[i] == x {
            return Some(i);
        }
        i = i + 1;
    }
    None
}

/// Copies a list of persons.
pub fn copy_persons(persons: &Vec<u64>) -> (r: Vec<u64>)
    ensures
        r@ == persons@,
{
    let mut r: Vec<u64> = Vec::new();
    let mut i: usize = 0;
    while i < persons.len()
        invariant
            i <= persons@.len(),
            r@ == persons@.subrange(0, i as int),
        decreases persons.len() - i,
    {
        r.push(persons[i]);
        i = i + 1;
        proof {
            assert(r@ =~= persons@.subrange(0, i as int));
        }
    }
    proof {
        assert(r@ =~= persons@);
    }
    r
}

impl VehicleOccupancy {
    /// No vehicle lists a person twice.
    pub open spec fn wf(&self) -> bool {
        forall|v: u64| #[trigger] self.vehicles@.contains_key(v) ==> no_repeats(self.vehicles@[v]@)
    }

    /// No vehicle is known yet.
    pub fn new() -> (r: Self)
        ensures
            r.wf(),
            r@ == Map::<u64, Set<u64>>::empty(),
    {
        let r = VehicleOccupancy { vehicles: HashMap::new() };
        proof {
            assert(r@ =~= Map::<u64, Set<u64>>::empty());
        }
        r
    }

    /// The person enters the vehicle; the vehicle becomes known if it was not.
    pub fn board(&mut self, vehicle: u64, person: u64)
        requires
            old(self).wf(),
        ensures
            final(self).wf(),
            final(self)@ == old(self)@.insert(vehicle, occupants(old(self)@, vehicle).insert(person)),
    {
        let ghost before = self@;
        let mut persons = match self.vehicles.remove(&vehicle) {
            Some(p) => p,
            None => Vec::new(),
        };
        let ghost old_persons = persons@;
        proof {
            assert(person_set(old_persons) =~= occupants(before, vehicle));
        }
        if contains_person(&persons, person).is_none() {
            persons.push(person);
            proof {
                assert forall|p: u64| person_set(persons@).contains(p) == person_set(
                    old_persons,
                ).insert(person).contains(p) by {
                    if person_set(old_persons).contains(p) {
                        let k = choose|k: int| 0 <= k < old_persons.len() && old_persons[k] == p;
                        assert(persons@[k] == p);
                    }
                    if p == person {
                        assert(persons@[old_persons.len() as int] == p);
                    }
                    if person_set(persons@).contains(p) && p != person {
                        let k = choose|k: int| 0 <= k < persons@.len() && persons@[k] == p;
                        assert(old_persons[k] == p);
                    }
                }
            }
        }
        proof {
            assert(person_set(persons@) =~= person_set(old_persons).insert(person));
            assert(no_repeats(persons@));
        }
        self.vehicles.insert(vehicle, persons);
        proof {
            assert(self@ =~= before.insert(vehicle, occupants(before, vehicle).insert(person)));
        }
    }

    /// The person leaves the vehicle, which must be known.
    pub fn alight(&mut self, vehicle: u64, person: u64)
        requires
            old(self).wf(),
            old(self)@.contains_key(vehicle),
        ensures
            final(self).wf(),
            final(self)@ == old(self)@.insert(vehicle, old(self)@[vehicle].remove(person)),
    {
        let ghost before = self@;
        let mut persons = self.vehicles.remove(&vehicle).unwrap();
        let ghost old_persons = persons@;
        match contains_person(&persons, person) {
            Some(i) => {
                persons.remove(i);
                proof {
                    assert forall|p: u64| person_set(persons@).contains(p) == person_set(
                        old_persons,
                    ).remove(person).contains(p) by {
                        if person_set(old_persons).remove(person).contains(p) {
                            let k = choose|k: int| 0 <= k < old_persons.len() && old_persons[k] == p;
                            if k < i {
                                assert(persons@[k] == p);
                            } else {
                                assert(k != i);
                                assert(persons@[k - 1] == p);
                            }
                        }
                        if person_set(persons@).contains(p) {
                            let k = choose|k: int| 0 <= k < persons@.len() && persons@[k] == p;
                            if k < i {
                                assert(old_persons[k] == p);
                            } else {
                                assert(old_persons[k + 1] == p);
                            }
                        }
                    }
                }
            },
            None => {},
        }
        proof {
            assert(person_set(persons@) =~= person_set(old_persons).remove(person));
            assert(no_repeats(persons@));
        }
        self.vehicles.insert(vehicle, persons);
        proof {
            assert(self@ =~= before.insert(vehicle, before[vehicle].remove(person)));
        }
    }

    /// The persons in the vehicle, without repeats; none when the vehicle is unknown.
    pub fn passengers(&self, vehicle: u64) -> (r: Vec<u64>)
        requires
            self.wf(),
        ensures
            person_set(r@) == occupants(self@, vehicle),
            no_repeats(r@),
    {
        match self.vehicles.get(&vehicle) {
            Some(persons) => {
                let r = copy_persons(persons);
                proof {
                    assert(self.vehicles@.contains_key(vehicle));
                }
                r
            },
            None => {
                let r: Vec<u64> = Vec::new();
                proof {
                    assert(person_set(r@) =~= Set::<u64>::empty());
                }
                r
            },
        }
    }

    /// Forgets the vehicle and returns its persons; none when the vehicle was unknown.
    pub fn remove_vehicle(&mut self, vehicle: u64) -> (r: Vec<u64>)
        requires
            old(self).wf(),
        ensures
            final(self).wf(),
            final(self)@ == old(self)@.remove(vehicle),
            person_set(r@) == occupants(old(self)@, vehicle),
            no_repeats(r@),
    {
        let ghost before = self@;
        let r = match self.vehicles.remove(&vehicle) {
            Some(p) => p,
            None => Vec::new(),
        };
        proof {
            assert(self@ =~= before.remove(vehicle));
            assert(person_set(r@) =~= occupants(before, vehicle));
        }
        r
    }

    /// Records a vehicle with its persons, replacing what was known of it.
    pub fn put_vehicle(&mut self, vehicle: u64, persons: Vec<u64>)
        requires
            old(self).wf(),
            no_repeats(persons@),
        ensures
            final(self).wf(),
            final(self)@ == old(self)@.insert(vehicle, person_set(persons@)),
    {
        let ghost before = self@;
        let ghost ps = persons@;
        self.vehicles.insert(vehicle, persons);
        proof {
            assert(self@ =~= before.insert(vehicle, person_set(ps)));
        }
    }
}

} // verus!
