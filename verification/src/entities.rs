//! Records of tickets, files and the bags that gather them.
use vstd::prelude::*;

verus! {

/// A ticket by which a bag of files is found again.
#[derive(Clone, Debug)]
pub struct Ticket {
    pub id: String,
}

impl PartialEq for Ticket {
    fn eq(&self, other: &Self) -> (r: bool) {
        self.id == other.id
    }
}

impl vstd::std_specs::cmp::PartialEqSpecImpl for Ticket {
    open spec fn obeys_eq_spec() -> bool {
        true
    }

    open spec fn eq_spec(&self, other: &Self) -> bool {
        self.id@ == other.id@
    }
}

impl std::hash::Hash for Ticket {
    #[verifier::external_body]
    fn hash<H: std::hash::Hasher>(&self, state: &mut H) {
        self.id.hash(state);
    }
}


/// A file with its bytes and the times at which its record was written.
#[derive(Clone, Debug)]
pub struct File {
    pub id: String,
    pub name: String,
    pub data: Vec<u8>,
    pub created_at: String,
    pub updated_at: String,
}

impl File {
    /// Two file records agree in every field.
    pub open spec fn same_as(&self, other: &File) -> bool {
        &&& self.id@ == other.id@
        &&& self.name@ == other.name@
        &&& self.data@ == other.data@
        &&& self.created_at@ == other.created_at@
        &&& self.updated_at@ == other.updated_at@
    }
}

/// Whether two byte vectors hold the same bytes.
fn bytes_equal(a: &Vec<u8>, b: &Vec<u8>) -> (r: bool)
    ensures
        r == (a@ == b@),
{
    if a.len() != b.len() {
        return false;
    }
    let mut i: usize = 0;
    while i < a.len()
        invariant
            a@.len() == b@.len(),
            i <= a@.len(),
            forall|j: int| 0 <= j < i ==> a@[j] == b@[j],
        decreases a@.len() - i,
    {
        if a[i] != b[i] {
            return false;
        }
        i = i + 1;
    }
    assert(a@ =~= b@);
    true
}

impl PartialEq for File {
    fn eq(&self, other: &Self) -> (r: bool) {
        self.id == other.id && self.name == other.name && bytes_equal(&self.data, &other.data)
            && self.created_at == other.created_at && self.updated_at == other.updated_at
    }
}

impl vstd::std_specs::cmp::PartialEqSpecImpl for File {
    open spec fn obeys_eq_spec() -> bool {
        true
    }

    open spec fn eq_spec(&self, other: &Self) -> bool {
        self.same_as(other)
    }
}

impl std::hash::Hash for File {
    #[verifier::external_body]
    fn hash<H: std::hash::Hasher>(&self, state: &mut H) {
        self.id.hash(state);
    }
}

/// A bag of files handed out under a ticket.
#[derive(Clone, Debug)]
pub struct Bag {
    pub id: String,
    pub ticket: Ticket,
    pub files: Vec<File>,
    pub created_at: String,
    pub updated_at: String,
}

impl Bag {
    /// Two bag records agree in every field, their files one by one.
    pub open spec fn same_as(&self, other: &Bag) -> bool {
        &&& self.id@ == other.id@
        &&& self.ticket.id@ == other.ticket.id@
        &&& self.files@.len() == other.files@.len()
        &&& forall|i: int| 0 <= i < self.files@.len() ==> (#[trigger] self.files@[i]).same_as(&other.files@[i])
        &&& self.created_at@ == other.created_at@
        &&& self.updated_at@ == other.updated_at@
    }
}

/// Whether two lists of file records agree one by one.
fn files_equal(a: &Vec<File>, b: &Vec<File>) -> (r: bool)
    ensures
        r == (a@.len() == b@.len() && forall|i: int| 0 <= i < a@.len() ==> (#[trigger] a@[i]).same_as(&b@[i])),
{
    if a.len() != b.len() {
        return false;
    }
    let mut i: usize = 0;
    while i < a.len()
        invariant
            a@.len() == b@.len(),
            i <= a@.len(),
            forall|j: int| 0 <= j < i ==> (#[trigger] a@[j]).same_as(&b@[j]),
        decreases a@.len() - i,
    {
        if !a[i].eq(&b[i]) {
            return false;
        }
        i = i + 1;
    }
    true
}

impl PartialEq for Bag {
    fn eq(&self, other: &Self) -> (r: bool) {
        self.id == other.id && self.ticket.eq(&other.ticket) && files_equal(&self.files, &other.files)
            && self.created_at == other.created_at && self.updated_at == other.updated_at
    }
}

impl vstd::std_specs::cmp::PartialEqSpecImpl for Bag {
    open spec fn obeys_eq_spec() -> bool {
        true
    }

    open spec fn eq_spec(&self, other: &Self) -> bool {
        self.same_as(other)
    }
}

impl std::hash::Hash for Bag {
    #[verifier::external_body]
    fn hash<H: std::hash::Hasher>(&self, state: &mut H) {
        self.id.hash(state);
    }
}


/// Two file records are equal exactly when they agree in every field: id,
/// name, bytes, and both times, so records that differ only in when they were
/// last updated are not equal.
pub proof fn law_file_equality_is_fieldwise(a: File, b: File)
    ensures
        a.same_as(&b) <==> (a.id@ == b.id@ && a.name@ == b.name@ && a.data@ == b.data@
            && a.created_at@ == b.created_at@ && a.updated_at@ == b.updated_at@),
        a.updated_at@ != b.updated_at@ ==> !a.same_as(&b),
{
}

/// Two bag records are equal exactly when they agree in id, ticket and both
/// times, and hold equal file records one by one.
pub proof fn law_bag_equality_is_fieldwise(a: Bag, b: Bag)
    ensures
        a.same_as(&b) <==> (a.id@ == b.id@ && a.ticket.id@ == b.ticket.id@
            && a.files@.len() == b.files@.len()
            && (forall|i: int| 0 <= i < a.files@.len() ==> #[trigger] a.files@[i].same_as(&b.files@[i]))
            && a.created_at@ == b.created_at@ && a.updated_at@ == b.updated_at@),
        a.updated_at@ != b.updated_at@ ==> !a.same_as(&b),
{
}

/// Equality of file records is an equivalence, and equal records share an
/// id, the one field that their hash reads.
pub proof fn law_file_equality(a: File, b: File, c: File)
    ensures
        a.same_as(&a),
        a.same_as(&b) ==> b.same_as(&a),
        a.same_as(&b) && b.same_as(&c) ==> a.same_as(&c),
        a.same_as(&b) ==> a.id@ == b.id@,
{
}

/// Equality of bag records is an equivalence, and equal records share an id,
/// the one field that their hash reads.
pub proof fn law_bag_equality(a: Bag, b: Bag, c: Bag)
    ensures
        a.same_as(&a),
        a.same_as(&b) ==> b.same_as(&a),
        a.same_as(&b) && b.same_as(&c) ==> a.same_as(&c),
        a.same_as(&b) ==> a.id@ == b.id@,
{
    if a.same_as(&b) {
        assert forall|i: int| 0 <= i < b.files@.len() implies (#[trigger] b.files@[i]).same_as(&a.files@[i]) by {
            assert(a.files@[i].same_as(&b.files@[i]));
        }
    }
    if a.same_as(&b) && b.same_as(&c) {
        assert forall|i: int| 0 <= i < a.files@.len() implies (#[trigger] a.files@[i]).same_as(&c.files@[i]) by {
            assert(a.files@[i].same_as(&b.files@[i]));
            assert(b.files@[i].same_as(&c.files@[i]));
        }
    }
}

} // verus!
