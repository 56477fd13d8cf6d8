//! The credential set: who is known, and the digest of each password.
//!
//! The set maps an identity to one digest. It is kept as a list of records
//! without repeated identity, in the order in which the identities were first
//! added; the searches take that list as it is.

use vstd::prelude::*;
use vstd::string::StringSliceAdditionalSpecFns;
use crate::digest::{digest, digest_of};
use crate::search::{bytes_equal, Record};

verus! {

/// No identity occurs in two records.
pub open spec fn unique_identities(records: Seq<Record>) -> bool {
    forall|r: int, s: int|
        0 <= r < records.len() && 0 <= s < records.len() && records[r].identity@
            == records[s].identity@ ==> r == s
}

/// `identity` has a record.
pub open spec fn known(records: Seq<Record>, identity: Seq<char>) -> bool {
    exists|r: int| 0 <= r < records.len() && #[trigger] records[r].identity@ == identity
}

/// The place of the record of `identity`.
pub open spec fn place_of(records: Seq<Record>, identity: Seq<char>) -> int {
    choose|r: int| 0 <= r < records.len() && #[trigger] records[r].identity@ == identity
}

/// The mapping that a list of records stands for.
pub open spec fn mapping(records: Seq<Record>) -> Map<Seq<char>, Seq<u8>> {
    Map::new(
        |identity: Seq<char>| known(records, identity),
        |identity: Seq<char>| records[place_of(records, identity)].digest@,
    )
}

/// What an attempt to authenticate comes to.
#[derive(Clone, Copy, Debug, PartialEq, Eq, Structural)]
pub enum AuthOutcome {
    /// The identity is known and the password has the stored digest.
    Success,
    /// The identity is known and the password has another digest.
    BadPassword,
    /// The identity has no record.
    NoSuchUser,
}

/// The credential set.
#[derive(Clone, Debug)]
pub struct Database {
    records: Vec<Record>,
}

impl View for Database {
    type V = Map<Seq<char>, Seq<u8>>;

    open spec fn view(&self) -> Map<Seq<char>, Seq<u8>> {
        mapping(self.entries())
    }
}

impl Database {
    /// The records, in the order in which their identities were first added.
    pub closed spec fn entries(&self) -> Seq<Record> {
        self.records@
    }

    /// No identity has two records.
    pub open spec fn wf(&self) -> bool {
        unique_identities(self.entries())
    }

    /// The empty set.
    pub fn new() -> (db: Database)
        ensures
            db.wf(),
            db@ == Map::<Seq<char>, Seq<u8>>::empty(),
            db.entries().len() == 0,
    {
        let db = Database { records: Vec::new() };
        assert(db@ =~= Map::<Seq<char>, Seq<u8>>::empty());
        db
    }

    /// The records, to search against.
    pub fn records(&self) -> (records: &[Record])
        ensures
            records@ == self.entries(),
    {
        self.records.as_slice()
    }

    /// Where the record of `identity` stands, if it has one.
    fn find(&self, identity: &String) -> (found: Option<usize>)
        ensures
            found.is_some() <==> known(self.records@, identity@),
            found.is_some() ==> found.unwrap() < self.records@.len() && self.records@[found.unwrap() as int].identity@
                == identity@,
    {
        let n: usize = self.records.len();
        let mut r: usize = 0;
        while r < n
            invariant
                r <= n == self.records@.len(),
                forall|s: int| 0 <= s < r ==> self.records@[s].identity@ != identity@,
            decreases n - r,
        {
            if self.records[r].identity == *identity {
                return Some(r);
            }
            r = r + 1;
        }
        None
    }

    /// The digest stored for `identity`, if it has one.
    pub fn get(&self, identity: &str) -> (stored: Option<&Vec<u8>>)
        requires
            self.wf(),
        ensures
            stored.is_some() <==> self@.contains_key(identity@),
            stored.is_some() ==> stored.unwrap()@ == self@[identity@],
    {
        let key: String = identity.to_owned();
        match self.find(&key) {
            Some(r) => {
                assert(place_of(self.records@, identity@) == r);
                Some(&self.records[r].digest)
            },
            None => None,
        }
    }

    /// Stores `digest` for `identity`, in place of the digest stored for it
    /// before if there was one, which is handed back.
    pub fn insert(&mut self, identity: String, digest: Vec<u8>) -> (previous: Option<Vec<u8>>)
        requires
            old(self).wf(),
        ensures
            final(self).wf(),
            final(self)@ == old(self)@.insert(identity@, digest@),
            previous.is_some() <==> old(self)@.contains_key(identity@),
            previous.is_some() ==> previous.unwrap()@ == old(self)@[identity@],
            final(self).entries().len() == old(self).entries().len() + if previous.is_some() {
                0int
            } else {
                1int
            },
    {
        let ghost before = self.records@;
        let ghost key = identity@;
        let ghost value = digest@;
        match self.find(&identity) {
            Some(r) => {
                assert(place_of(before, key) == r);
                let previous: Vec<u8> = vstd::slice::slice_to_vec(
                    self.records[r].digest.as_slice(),
                );
                self.records[r] = Record { identity, digest };
                proof {
                    let after = self.records@;
                    assert forall|id: Seq<char>| known(after, id) == known(before, id) by {
                        if known(before, id) {
                            let s = place_of(before, id);
                            assert(after[s].identity@ == id);
                        }
                        if known(after, id) {
                            let s = place_of(after, id);
                            assert(before[s].identity@ == id);
                        }
                    }
                    assert forall|id: Seq<char>| known(after, id) implies mapping(after)[id] == (if id
                        == key {
                        value
                    } else {
                        mapping(before)[id]
                    }) by {
                        let s = place_of(after, id);
                        assert(before[s].identity@ == id);
                        if id != key {
                            assert(place_of(before, id) == s);
                        }
                    }
                    assert(mapping(after) =~= mapping(before).insert(key, value));
                }
                Some(previous)
            },
            None => {
                self.records.push(Record { identity, digest });
                proof {
                    let after = self.records@;
                    let last = before.len() as int;
                    assert(after[last].identity@ == key);
                    assert forall|id: Seq<char>| known(after, id) == (id == key || known(
                        before,
                        id,
                    )) by {
                        if known(before, id) {
                            let s = place_of(before, id);
                            assert(after[s].identity@ == id);
                        }
                        if known(after, id) && id != key {
                            let s = place_of(after, id);
                            assert(before[s].identity@ == id);
                        }
                    }
                    assert forall|id: Seq<char>| known(after, id) implies mapping(after)[id] == (if id
                        == key {
                        value
                    } else {
                        mapping(before)[id]
                    }) by {
                        let s = place_of(after, id);
                        if id != key {
                            assert(before[s].identity@ == id);
                            assert(place_of(before, id) == s);
                        }
                    }
                    assert(mapping(after) =~= mapping(before).insert(key, value));
                }
                None
            },
        }
    }

    /// Stores for `username` the digest of `password`.
    pub fn add_user(&mut self, username: &str, password: &str)
        requires
            old(self).wf(),
        ensures
            final(self).wf(),
            final(self)@ == old(self)@.insert(username@, digest_of(password.spec_bytes())),
    {
        let value: [u8; 16] = digest(password.as_bytes());
        let _ = self.insert(username.to_owned(), vstd::slice::slice_to_vec(value.as_slice()));
    }

    /// Checks `password` against the digest stored for `username`.
    pub fn auth(&self, username: &str, password: &str) -> (outcome: AuthOutcome)
        requires
            self.wf(),
        ensures
            outcome == if !self@.contains_key(username@) {
                AuthOutcome::NoSuchUser
            } else if self@[username@] == digest_of(password.spec_bytes()) {
                AuthOutcome::Success
            } else {
                AuthOutcome::BadPassword
            },
    {
        let entered: [u8; 16] = digest(password.as_bytes());
        match self.get(username) {
            Some(stored) => {
                if bytes_equal(stored.as_slice(), entered.as_slice()) {
                    AuthOutcome::Success
                } else {
                    AuthOutcome::BadPassword
                }
            },
            None => AuthOutcome::NoSuchUser,
        }
    }
}

} // verus!
