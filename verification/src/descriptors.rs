//! From a schema identifier to the compiled descriptor of its schema.
//!
//! Compiling a schema needs the file system: the schema text has to lie in a
//! file before the compiler reads it. So the work is shared. This module
//! looks a schema up, names the file it is to be staged in, decides file by
//! file which of the linked files is the staged one and which are what it
//! imports, and keeps the descriptor, one per identifier, for as long as the
//! cache lives. Writing the file, running the compiler and linking what it
//! gave is the caller's part: the first two need the file system, and the
//! protobuf crate may panic when it links a file that no compiler would have
//! let through, which nothing here can tell from another.

use crate::confluent::Schema;
use crate::error::{Error, ProtobufError};
use crate::text::{decimal, decimal_round_trip, decimal_string};
use protobuf::reflect::FileDescriptor;
use std::collections::BTreeMap;
use vstd::prelude::*;
use vstd::string::{StringExecFns, StringSliceAdditionalSpecFns};
use vstd::utf8::encode_utf8;

verus! {

/// `protobuf::reflect::FileDescriptor`: the descriptor of one file, linked
/// with those of the files it imports.
#[verifier::external_type_specification]
#[verifier::external_body]
pub struct ExFileDescriptor(FileDescriptor);

/// A path without the `./` it may start with.
pub open spec fn without_dot_slash(p: Seq<u8>) -> Seq<u8> {
    if p.len() >= 2 && p[0] == 0x2e && p[1] == 0x2f {
        p.skip(2)
    } else {
        p
    }
}

/// Whether two paths, given as their UTF-8 bytes, are the same but for a
/// leading `./` on either.
pub open spec fn is_same_path(a: Seq<u8>, b: Seq<u8>) -> bool {
    without_dot_slash(a) == without_dot_slash(b)
}

/// Whether `a` and `b` name the same path but for a leading `./` on either.
pub fn same_path(a: &str, b: &str) -> (same: bool)
    ensures
        same == is_same_path(a.spec_bytes(), b.spec_bytes()),
{
    let x = a.as_bytes();
    let y = b.as_bytes();
    let from_x: usize = if x.len() >= 2 && x[0] == 0x2e && x[1] == 0x2f {
        2
    } else {
        0
    };
    let from_y: usize = if y.len() >= 2 && y[0] == 0x2e && y[1] == 0x2f {
        2
    } else {
        0
    };
    let ghost p = without_dot_slash(x@);
    let ghost q = without_dot_slash(y@);
    assert(p =~= x@.skip(from_x as int));
    assert(q =~= y@.skip(from_y as int));
    if x.len() - from_x != y.len() - from_y {
        return false;
    }
    let n = x.len() - from_x;
    let mut i: usize = 0;
    while i < n
        invariant
            i <= n,
            n == x@.len() - from_x,
            n == y@.len() - from_y,
            x@.len() <= usize::MAX,
            y@.len() <= usize::MAX,
            x@ == a.spec_bytes(),
            y@ == b.spec_bytes(),
            p == without_dot_slash(x@),
            q == without_dot_slash(y@),
            p == x@.skip(from_x as int),
            q == y@.skip(from_y as int),
            forall|j: int| 0 <= j < i ==> p[j] == q[j],
        decreases n - i,
    {
        if x[from_x + i] != y[from_y + i] {
            assert(p[i as int] != q[i as int]);
            return false;
        }
        i = i + 1;
    }
    assert(p =~= q);
    true
}

/// Where the first entry with the identifier `id` stands in a catalog.
pub open spec fn first_with_id(schemas: Seq<Schema>, id: i32) -> Option<int>
    decreases schemas.len(),
{
    if schemas.len() == 0 {
        None
    } else if schemas[0].id == id {
        Some(0)
    } else {
        match first_with_id(schemas.drop_first(), id) {
            Some(i) => Some(i + 1),
            None => None,
        }
    }
}

/// The first entry with the identifier `id` is an entry with that identifier
/// that no other such entry stands before; there is none exactly where no
/// entry has the identifier.
pub proof fn lemma_first_with_id(schemas: Seq<Schema>, id: i32)
    ensures
        match first_with_id(schemas, id) {
            Some(i) => {
                &&& 0 <= i < schemas.len()
                &&& schemas[i].id == id
                &&& forall|j: int| 0 <= j < i ==> (#[trigger] schemas[j]).id != id
            },
            None => forall|j: int| 0 <= j < schemas.len() ==> (#[trigger] schemas[j]).id != id,
        },
    decreases schemas.len(),
{
    if schemas.len() > 0 && schemas[0].id != id {
        let rest = schemas.drop_first();
        lemma_first_with_id(rest, id);
        match first_with_id(rest, id) {
            Some(i) => {
                assert forall|j: int| 0 <= j < i + 1 implies (#[trigger] schemas[j]).id != id by {
                    if j > 0 {
                        assert(rest[j - 1].id != id);
                    }
                }
            },
            None => {
                assert forall|j: int| 0 <= j < schemas.len() implies (#[trigger] schemas[j]).id
                    != id by {
                    if j > 0 {
                        assert(rest[j - 1].id != id);
                    }
                }
            },
        }
    }
}

/// Looks an identifier up in a catalog: the first entry that has it counts.
pub fn find_schema(schemas: &Vec<Schema>, id: i32) -> (found: Option<usize>)
    ensures
        match found {
            Some(i) => first_with_id(schemas@, id) == Some(i as int),
            None => first_with_id(schemas@, id) is None,
        },
{
    let mut i: usize = 0;
    while i < schemas.len()
        invariant
            i <= schemas.len(),
            forall|j: int| 0 <= j < i ==> (#[trigger] schemas@[j]).id != id,
        decreases schemas.len() - i,
    {
        if schemas[i].id == id {
            proof {
                lemma_first_with_id(schemas@, id);
            }
            return Some(i);
        }
        i = i + 1;
    }
    proof {
        lemma_first_with_id(schemas@, id);
    }
    None
}

/// The name of the file that the schema with the identifier `id` is staged
/// in.
pub open spec fn staged_name(id: i32) -> Seq<char> {
    "temp-schema-"@ + decimal(id as int) + ".proto"@
}

/// Names the file that the schema with the identifier `id` is staged in.
pub fn staged_file_name(id: i32) -> (name: String)
    ensures
        name@ == staged_name(id),
{
    let number = decimal_string(id);
    let mut name = String::from_str("temp-schema-");
    name.append(number.as_str());
    name.append(".proto");
    name
}

/// Schemas with different identifiers are staged in different files.
pub proof fn staged_names_differ(a: i32, b: i32)
    requires
        a != b,
    ensures
        staged_name(a) != staged_name(b),
{
    reveal_strlit("temp-schema-");
    reveal_strlit(".proto");
    let x = staged_name(a);
    let y = staged_name(b);
    if x == y {
        let da = decimal(a as int);
        let db = decimal(b as int);
        assert(x.subrange(12, 12 + da.len() as int) =~= da);
        assert(y.subrange(12, 12 + db.len() as int) =~= db);
        assert(x.len() == 12 + da.len() + 6);
        assert(y.len() == 12 + db.len() + 6);
        decimal_round_trip(a as i64);
        decimal_round_trip(b as i64);
    }
}

/// What came of linking one of the files that the compiler gave: the name
/// the file carries, if it carries one, and its descriptor, if it linked.
pub struct Linked {
    pub name: Option<String>,
    pub descriptor: Option<FileDescriptor>,
}

/// Whether `name` is the name of the file staged at the path whose UTF-8
/// bytes are `staged`. A file without a name is not.
pub open spec fn names_staged(name: Option<String>, staged: Seq<u8>) -> bool {
    match name {
        Some(n) => is_same_path(encode_utf8(n@), staged),
        None => false,
    }
}

/// The descriptor of the staged file among the files that were linked, in
/// the order in which they were: the first that linked and lies at the staged
/// path. A file that did not link is passed by.
pub open spec fn select(files: Seq<Linked>, staged: Seq<u8>) -> Option<FileDescriptor>
    decreases files.len(),
{
    if files.len() == 0 {
        None
    } else {
        match files[0].descriptor {
            Some(fd) if names_staged(files[0].name, staged) => Some(fd),
            _ => select(files.drop_first(), staged),
        }
    }
}

/// The descriptors that the staged file may import: those of the files that
/// linked before it, in their order.
pub open spec fn dependencies(files: Seq<Linked>, staged: Seq<u8>) -> Seq<FileDescriptor>
    decreases files.len(),
{
    if files.len() == 0 {
        Seq::empty()
    } else {
        match files[0].descriptor {
            Some(fd) => if names_staged(files[0].name, staged) {
                Seq::empty()
            } else {
                seq![fd] + dependencies(files.drop_first(), staged)
            },
            None => dependencies(files.drop_first(), staged),
        }
    }
}

/// The linking of the files of one compilation, as the contracts see it.
pub ghost struct LinkingModel {
    /// The UTF-8 bytes of the path that the schema was staged at.
    pub staged: Seq<u8>,
    /// The descriptors of the files that linked and are not the staged one.
    pub deps: Seq<FileDescriptor>,
    /// The descriptor of the staged file, once it has linked.
    pub selected: Option<FileDescriptor>,
}

impl LinkingModel {
    /// The linking after one more file has been linked, or has failed to.
    /// Once the staged file is found nothing changes any more. Before that, a
    /// file that linked is the staged file where its name says so, and else
    /// one more file that those after it may import.
    pub open spec fn offer(self, file: Linked) -> LinkingModel {
        if self.selected is Some {
            self
        } else {
            match file.descriptor {
                Some(fd) => if names_staged(file.name, self.staged) {
                    LinkingModel { selected: Some(fd), ..self }
                } else {
                    LinkingModel { deps: self.deps.push(fd), ..self }
                },
                None => self,
            }
        }
    }

    /// The linking after all of `files` have been offered, in their order.
    pub open spec fn offer_all(self, files: Seq<Linked>) -> LinkingModel
        decreases files.len(),
    {
        if files.len() == 0 {
            self
        } else {
            self.offer(files[0]).offer_all(files.drop_first())
        }
    }
}

/// Offering the files of a compilation one by one finds the first that
/// linked and lies at the staged path, and has gathered, by then, the files
/// that linked before it.
pub proof fn offers_find_the_staged_file(start: LinkingModel, files: Seq<Linked>)
    requires
        start.selected is None,
    ensures
        start.offer_all(files).selected == select(files, start.staged),
        start.offer_all(files).deps == start.deps + dependencies(files, start.staged),
        start.offer_all(files).staged == start.staged,
    decreases files.len(),
{
    if files.len() == 0 {
        assert(start.deps + Seq::<FileDescriptor>::empty() =~= start.deps);
    } else {
        let next = start.offer(files[0]);
        let rest = files.drop_first();
        if next.selected is Some {
            lemma_offers_after_the_find(next, rest);
            assert(start.deps + Seq::<FileDescriptor>::empty() =~= start.deps);
        } else {
            offers_find_the_staged_file(next, rest);
            match files[0].descriptor {
                Some(fd) => {
                    assert(start.deps.push(fd) + dependencies(rest, start.staged) =~= start.deps
                        + (seq![fd] + dependencies(rest, start.staged)));
                },
                None => {},
            }
        }
    }
}

proof fn lemma_offers_after_the_find(found: LinkingModel, files: Seq<Linked>)
    requires
        found.selected is Some,
    ensures
        found.offer_all(files) == found,
    decreases files.len(),
{
    if files.len() > 0 {
        lemma_offers_after_the_find(found, files.drop_first());
    }
}

/// The linking of the files of one compilation: which of them is the staged
/// file, and which are what it may import.
pub struct Linking {
    staged: String,
    deps: Vec<FileDescriptor>,
    selected: Option<FileDescriptor>,
}

impl View for Linking {
    type V = LinkingModel;

    closed spec fn view(&self) -> LinkingModel {
        LinkingModel {
            staged: encode_utf8(self.staged@),
            deps: self.deps@,
            selected: self.selected,
        }
    }
}

impl Linking {
    /// A linking that no file has been offered to, for a schema staged at
    /// `staged_path`.
    pub fn new(staged_path: String) -> (l: Self)
        ensures
            l@ == (LinkingModel {
                staged: encode_utf8(staged_path@),
                deps: Seq::empty(),
                selected: None,
            }),
    {
        Linking { staged: staged_path, deps: Vec::new(), selected: None }
    }

    /// The descriptors to link the next file against.
    pub fn deps(&self) -> (deps: &Vec<FileDescriptor>)
        ensures
            deps@ == self@.deps,
    {
        &self.deps
    }

    /// Whether the staged file has been found, so that no more files need
    /// linking.
    pub fn is_done(&self) -> (done: bool)
        ensures
            done == self@.selected is Some,
    {
        self.selected.is_some()
    }

    /// Takes in what came of linking one file, and says whether the staged
    /// file has been found.
    pub fn offer(
        &mut self,
        name: Option<String>,
        descriptor: Option<FileDescriptor>,
    ) -> (done: bool)
        ensures
            final(self)@ == old(self)@.offer(Linked { name, descriptor }),
            done == final(self)@.selected is Some,
    {
        if self.selected.is_some() {
            return true;
        }
        match descriptor {
            Some(fd) => {
                let staged_here = match &name {
                    Some(n) => same_path(n.as_str(), self.staged.as_str()),
                    None => false,
                };
                if staged_here {
                    self.selected = Some(fd);
                    true
                } else {
                    self.deps.push(fd);
                    false
                }
            },
            None => false,
        }
    }
}

/// What is to be done before a payload of some schema can be decoded.
#[derive(Debug)]
pub enum Staging {
    /// Nothing: the descriptor is in the cache.
    Cached,
    /// The schema text is to be written to a file of this name in the
    /// staging directory and compiled, and the outcome installed.
    Stage { file_name: String, schema: String },
}

/// The descriptors compiled so far, by schema identifier.
pub struct ProtobufFileDescriptors {
    map: BTreeMap<i32, FileDescriptor>,
}

/// The cache after the outcome of a compilation has been offered for `id`:
/// a descriptor is taken where the cache has none for `id` yet; what the
/// cache holds, it keeps.
pub open spec fn after_install(
    cached: Map<i32, FileDescriptor>,
    id: i32,
    selected: Option<FileDescriptor>,
) -> Map<i32, FileDescriptor> {
    match selected {
        Some(fd) if !cached.contains_key(id) => cached.insert(id, fd),
        _ => cached,
    }
}

/// What is to be done for `id` with this cache and this catalog.
pub open spec fn staging_for(
    cached: Map<i32, FileDescriptor>,
    schemas: Seq<Schema>,
    id: i32,
) -> Result<Option<int>, Error> {
    if cached.contains_key(id) {
        Ok(None)
    } else {
        match first_with_id(schemas, id) {
            Some(i) => Ok(Some(i)),
            None => Err(Error::Protobuf(ProtobufError::SchemaNotFound(id))),
        }
    }
}

impl ProtobufFileDescriptors {
    /// The descriptors that the cache holds.
    pub closed spec fn cached(&self) -> Map<i32, FileDescriptor> {
        self.map@
    }

    /// An empty cache.
    pub fn new() -> (cache: Self)
        ensures
            cache.cached() == Map::<i32, FileDescriptor>::empty(),
    {
        ProtobufFileDescriptors { map: BTreeMap::new() }
    }

    /// Whether the cache holds a descriptor for `schema_id`.
    pub fn contains(&self, schema_id: i32) -> (held: bool)
        ensures
            held == self.cached().contains_key(schema_id),
    {
        broadcast use vstd::std_specs::btree::group_btree_axioms;

        self.map.contains_key(&schema_id)
    }

    /// The descriptor that the cache holds for `schema_id`.
    pub fn get(&self, schema_id: i32) -> (found: Option<&FileDescriptor>)
        ensures
            match found {
                Some(fd) => self.cached().contains_key(schema_id) && self.cached()[schema_id]
                    == *fd,
                None => !self.cached().contains_key(schema_id),
            },
    {
        broadcast use vstd::std_specs::btree::group_btree_axioms;

        self.map.get(&schema_id)
    }

    /// Says what is to be done before a payload of the schema `schema_id`
    /// can be decoded: nothing where its descriptor is cached; else staging
    /// and compiling the text of the first catalog entry with that
    /// identifier; and a failure where the catalog has no such entry.
    pub fn resolve(&self, schemas: &Vec<Schema>, schema_id: i32) -> (r: Result<Staging, Error>)
        ensures
            match staging_for(self.cached(), schemas@, schema_id) {
                Ok(None) => r matches Ok(Staging::Cached),
                Ok(Some(i)) => r matches Ok(Staging::Stage { file_name, schema })
                    && file_name@ == staged_name(schema_id) && schema == schemas@[i].schema,
                Err(e) => r matches Err(f) && f == e,
            },
    {
        if self.contains(schema_id) {
            return Ok(Staging::Cached);
        }
        match find_schema(schemas, schema_id) {
            Some(i) => {
                proof {
                    lemma_first_with_id(schemas@, schema_id);
                }
                Ok(
                    Staging::Stage {
                        file_name: staged_file_name(schema_id),
                        schema: schemas[i].schema.clone(),
                    },
                )
            },
            None => Err(Error::Protobuf(ProtobufError::SchemaNotFound(schema_id))),
        }
    }

    /// The descriptor of the staged file as a linking found it, or the
    /// failure where it found none.
    pub fn get_file_descriptor(linking: Linking, schema_id: i32) -> (r: Result<
        FileDescriptor,
        Error,
    >)
        ensures
            match linking@.selected {
                Some(fd) => r matches Ok(got) && got == fd,
                None => r matches Err(e) && e == Error::Protobuf(
                    ProtobufError::CouldNotFindFileDescriptorForSchema(schema_id),
                ),
            },
    {
        match linking.selected {
            Some(fd) => Ok(fd),
            None => Err(
                Error::Protobuf(ProtobufError::CouldNotFindFileDescriptorForSchema(schema_id)),
            ),
        }
    }

    /// Takes in what the linking of a compilation found for the schema
    /// `schema_id`. Where the cache has a descriptor for the identifier
    /// already, it keeps that one.
    pub fn install(&mut self, schema_id: i32, linking: Linking) -> (r: Result<(), Error>)
        ensures
            final(self).cached() == after_install(
                old(self).cached(),
                schema_id,
                linking@.selected,
            ),
            r is Ok <==> final(self).cached().contains_key(schema_id),
            r matches Err(e) ==> e == Error::Protobuf(
                ProtobufError::CouldNotFindFileDescriptorForSchema(schema_id),
            ),
    {
        broadcast use vstd::std_specs::btree::group_btree_axioms;

        if self.contains(schema_id) {
            return Ok(());
        }
        match Self::get_file_descriptor(linking, schema_id) {
            Ok(fd) => {
                self.map.insert(schema_id, fd);
                Ok(())
            },
            Err(e) => Err(e),
        }
    }
}

/// A descriptor is compiled at most once for an identifier. Once the cache
/// holds one, looking the identifier up asks for no compilation, whatever
/// the catalog says, and whatever is offered for the identifier later leaves
/// the cache as it is: the descriptor in it is the one that was first taken.
pub proof fn cache_fill_is_idempotent(
    cached: Map<i32, FileDescriptor>,
    schemas: Seq<Schema>,
    id: i32,
    first: Option<FileDescriptor>,
    second: Option<FileDescriptor>,
)
    requires
        after_install(cached, id, first).contains_key(id),
    ensures
        staging_for(after_install(cached, id, first), schemas, id) == Ok::<Option<int>, Error>(
            None,
        ),
        after_install(after_install(cached, id, first), id, second) == after_install(
            cached,
            id,
            first,
        ),
{
}

/// Installing for one identifier changes nothing for any other, and nothing
/// that the cache held is ever lost or replaced.
pub proof fn cache_only_grows(
    cached: Map<i32, FileDescriptor>,
    id: i32,
    selected: Option<FileDescriptor>,
    other: i32,
)
    ensures
        cached.contains_key(other) ==> after_install(cached, id, selected).contains_key(other)
            && after_install(cached, id, selected)[other] == cached[other],
        other != id ==> (after_install(cached, id, selected).contains_key(other)
            <==> cached.contains_key(other)),
{
}

} // verus!
