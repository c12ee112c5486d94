//! From a record to the JSON lines that stand for it.
//!
//! Every payload is taken out of its envelope and decoded against the
//! descriptor of its schema under every message type the schema declares,
//! and each message that comes of it is rendered as one line of JSON. What
//! needs the file system or may not come back is the caller's part: the
//! record is handed back with what the compiler needs where its schema is
//! met for the first time, and with the types to try where its descriptor is
//! at hand; the messages are handed back to be printed, and the lines are
//! gathered from what the printer gave.

use crate::confluent::{decode_envelope, parse_confluent, Schema};
use crate::decode::{
    answers, declared_messages, decode_all, failure_views, failures_of, spelled, Attempt,
    Decoding,
};
use crate::descriptors::{
    after_install, first_with_id, staged_name, staging_for, Linking, ProtobufFileDescriptors,
    Staging,
};
use crate::error::{Error, ProtobufError};
use crate::msg::Msg;
use protobuf::reflect::{FileDescriptor, MessageDescriptor};
use vstd::prelude::*;
use vstd::string::StringExecFns;

verus! {

/// How far a record has got, and what is to be done for it next.
pub enum Progress {
    /// As far as its schema, which is to be compiled: `schema` is to be
    /// written to the file `file_name` in the staging directory and
    /// compiled, what the compiler gave is to be linked, and the linking
    /// handed to [`Proto2Json::install`].
    Compile { schema_id: i32, file_name: String, schema: String, value: Vec<u8> },
    /// As far as its message: `value` is to be read as each of `candidates`,
    /// in their order, and the attempts handed to [`Proto2Json::parse`].
    Decode { schema_id: i32, value: Vec<u8>, candidates: Vec<MessageDescriptor> },
}

/// The catalog, the places to look for imported schemas, and the
/// descriptors compiled so far.
pub struct Proto2Json {
    schemas_proto_path: Option<String>,
    schemas: Vec<Schema>,
    includes: Vec<String>,
    pfd: ProtobufFileDescriptors,
}

/// The directory that schemas are staged in when none is named.
pub open spec fn default_staging_dir() -> Seq<char> {
    "."@
}

/// A catalog put together from what a URL served and what a file held, either
/// of which may be lacking. An entry from the URL comes before any from the
/// file, so that it is the one found where both have the identifier.
pub open spec fn combined(from_url: Option<Vec<Schema>>, from_file: Option<Vec<Schema>>) -> Seq<
    Schema,
> {
    (match from_url {
        Some(s) => s@,
        None => Seq::empty(),
    }) + (match from_file {
        Some(s) => s@,
        None => Seq::empty(),
    })
}

impl Proto2Json {
    /// The catalog.
    pub closed spec fn catalog(&self) -> Seq<Schema> {
        self.schemas@
    }

    /// The descriptors compiled so far.
    pub closed spec fn cached(&self) -> Map<i32, FileDescriptor> {
        self.pfd.cached()
    }

    /// The places to look for imported schemas.
    pub closed spec fn include_paths(&self) -> Seq<String> {
        self.includes@
    }

    /// The directory that was named for staging.
    pub closed spec fn named_staging_dir(&self) -> Option<String> {
        self.schemas_proto_path
    }

    /// Sets a pipeline up. The catalog is what the URL served followed by
    /// what the file held, a source that could not be had counting for
    /// nothing; the include paths are those given and, after them, the
    /// current directory; no descriptor is compiled yet.
    pub fn load(
        schemas_proto_path: Option<String>,
        includes: Option<Vec<String>>,
        from_url: Option<Vec<Schema>>,
        from_file: Option<Vec<Schema>>,
    ) -> (r: Result<Proto2Json, Error>)
        ensures
            r matches Ok(p) && {
                &&& p.catalog() == combined(from_url, from_file)
                &&& spelled(p.include_paths()) == spelled(
                    match includes {
                        Some(given) => given@,
                        None => Seq::empty(),
                    },
                ).push("."@)
                &&& p.named_staging_dir() == schemas_proto_path
                &&& p.cached() == Map::<i32, FileDescriptor>::empty()
            },
    {
        let mut schemas: Vec<Schema> = match from_url {
            Some(s) => s,
            None => Vec::new(),
        };
        let mut rest: Vec<Schema> = match from_file {
            Some(s) => s,
            None => Vec::new(),
        };
        schemas.append(&mut rest);
        let mut includes: Vec<String> = match includes {
            Some(given) => given,
            None => Vec::new(),
        };
        let ghost given = includes@;
        includes.push(String::from_str("."));
        assert(spelled(includes@) =~= spelled(given).push("."@));
        Ok(
            Proto2Json {
                schemas_proto_path,
                schemas,
                includes,
                pfd: ProtobufFileDescriptors::new(),
            },
        )
    }

    /// The directory to stage schemas in: the one that was named, or the
    /// current directory.
    pub fn staging_dir(&self) -> (dir: &str)
        ensures
            dir@ == match self.named_staging_dir() {
                Some(named) => named@,
                None => default_staging_dir(),
            },
    {
        match &self.schemas_proto_path {
            Some(named) => named.as_str(),
            None => ".",
        }
    }

    /// The places to look for imported schemas.
    pub fn includes(&self) -> (paths: &Vec<String>)
        ensures
            paths@ == self.include_paths(),
    {
        &self.includes
    }

    /// The catalog.
    pub fn schemas(&self) -> (entries: &Vec<Schema>)
        ensures
            entries@ == self.catalog(),
    {
        &self.schemas
    }

    /// Takes a record as far as it goes by itself.
    ///
    /// The payload must be an envelope. Where the descriptor of its schema
    /// is cached, the record comes back with the message types to try, those
    /// that the descriptor declares, in the order of their declaration.
    /// Where it is not, the schema must be in the catalog, and is handed back
    /// to be compiled.
    pub fn proto2json(&self, msg: &Msg) -> (r: Result<Progress, Error>)
        ensures
            match decode_envelope(msg.msg@) {
                Err(e) => r matches Err(f) && f == e,
                Ok((schema_id, header_len)) => match staging_for(
                    self.cached(),
                    self.catalog(),
                    schema_id,
                ) {
                    Err(e) => r matches Err(f) && f == e,
                    Ok(Some(i)) => r matches Ok(
                        Progress::Compile { schema_id: id, file_name, schema, value },
                    ) && id == schema_id && file_name@ == staged_name(schema_id) && schema
                        == self.catalog()[i].schema && value@ == msg.msg@.skip(header_len as int),
                    Ok(None) => r matches Ok(Progress::Decode { schema_id: id, value, candidates })
                        && id == schema_id && value@ == msg.msg@.skip(header_len as int)
                        && candidates@ == declared_messages(self.cached()[schema_id]),
                },
            },
    {
        let envelope = match parse_confluent(msg.msg.as_slice()) {
            Ok(envelope) => envelope,
            Err(e) => {
                return Err(e);
            },
        };
        match self.pfd.resolve(&self.schemas, envelope.schema_id) {
            Ok(Staging::Cached) => match self.pfd.candidates(envelope.schema_id) {
                Ok(candidates) => Ok(
                    Progress::Decode {
                        schema_id: envelope.schema_id,
                        value: envelope.value,
                        candidates,
                    },
                ),
                Err(e) => Err(e),
            },
            Ok(Staging::Stage { file_name, schema }) => Ok(
                Progress::Compile {
                    schema_id: envelope.schema_id,
                    file_name,
                    schema,
                    value: envelope.value,
                },
            ),
            Err(e) => Err(e),
        }
    }

    /// Takes in what the linking of a compilation found for the schema
    /// `schema_id`, and says which message types a payload of the schema is
    /// to be tried against. Where the linking found no descriptor for the
    /// staged file, and the cache has none, the record fails.
    pub fn install(&mut self, schema_id: i32, linking: Linking) -> (r: Result<
        Vec<MessageDescriptor>,
        Error,
    >)
        ensures
            final(self).cached() == after_install(
                old(self).cached(),
                schema_id,
                linking@.selected,
            ),
            final(self).catalog() == old(self).catalog(),
            final(self).include_paths() == old(self).include_paths(),
            final(self).named_staging_dir() == old(self).named_staging_dir(),
            match r {
                Ok(candidates) => final(self).cached().contains_key(schema_id) && candidates@
                    == declared_messages(final(self).cached()[schema_id]),
                Err(e) => !final(self).cached().contains_key(schema_id) && e == Error::Protobuf(
                    ProtobufError::CouldNotFindFileDescriptorForSchema(schema_id),
                ),
            },
    {
        match self.pfd.install(schema_id, linking) {
            Ok(()) => {},
            Err(e) => {
                return Err(e);
            },
        }
        self.pfd.candidates(schema_id)
    }

    /// Takes in what trying the payload of a record of the schema
    /// `schema_id` gave, and sorts it: the messages on one side, a diagnostic
    /// for each failure on the other, both in the order in which the types
    /// are declared. The attempts must be one for each message type that the
    /// schema declares, in the order of their declaration.
    pub fn parse(&self, schema_id: i32, attempts: Vec<Attempt>) -> (r: Result<Decoding, Error>)
        ensures
            if !self.cached().contains_key(schema_id) {
                r matches Err(e) && e == Error::Protobuf(
                    ProtobufError::CouldNotFindFileDescriptorForSchema(schema_id),
                )
            } else if !answers(attempts@, declared_messages(self.cached()[schema_id])) {
                r matches Err(e) && e == Error::Protobuf(
                    ProtobufError::AttemptsDoNotMatch(schema_id),
                )
            } else {
                r matches Ok(out) && out.messages@ == decode_all(attempts@) && failure_views(
                    out.failures@,
                ) == failures_of(attempts@)
            },
    {
        self.pfd.parse(schema_id, attempts)
    }
}

/// In a catalog put together from two, an identifier is found in the first
/// wherever the first has it, and in the second only where the first has it
/// not.
pub proof fn first_catalog_takes_precedence(first: Seq<Schema>, second: Seq<Schema>, id: i32)
    ensures
        first_with_id(first + second, id) == match first_with_id(first, id) {
            Some(i) => Some(i),
            None => match first_with_id(second, id) {
                Some(j) => Some(first.len() + j),
                None => None,
            },
        },
    decreases first.len(),
{
    if first.len() == 0 {
        assert(first + second =~= second);
    } else {
        assert((first + second).drop_first() =~= first.drop_first() + second);
        first_catalog_takes_precedence(first.drop_first(), second, id);
    }
}

} // verus!
