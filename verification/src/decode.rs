//! Decoding a payload without knowing its message type, and rendering what
//! was decoded as JSON.
//!
//! The payload is tried against every message type that the descriptor
//! declares at its top level. This module says which types are to be tried
//! and in what order; the caller tries each and hands the attempts back. Each
//! type that the bytes parse under gives a message; each other gives a
//! diagnostic, and never an error.
//!
//! The reading itself is the caller's because the protobuf crate may panic
//! on a type that no compiler would have let through (a map entry tried as a
//! message, a map whose keys cannot be hashed), and nothing here can tell
//! such a type from another. So is the printing: the printer may panic on a
//! message that no reading gave (a timestamp with a billion nanoseconds). What
//! is checked here is that there is an attempt for every declared type, in
//! the order of the declaration, and a rendering for every message.

use crate::descriptors::ProtobufFileDescriptors;
use crate::error::{Error, ProtobufError};
use crate::text::{compact_json, compact_text};
use protobuf::reflect::{FileDescriptor, MessageDescriptor};
use protobuf_json_mapping::PrintError;
use vstd::prelude::*;

verus! {

/// `protobuf::reflect::MessageDescriptor`: one message type of a file.
#[verifier::external_type_specification]
#[verifier::external_body]
pub struct ExMessageDescriptor(MessageDescriptor);

/// `protobuf_json_mapping::PrintError`: why a message was not rendered.
#[verifier::external_type_specification]
#[verifier::external_body]
pub struct ExPrintError(PrintError);

/// A message that was decoded under one of the declared types. It holds a
/// `Box<dyn protobuf::MessageDyn>`, which is all that is known of it here.
#[verifier::external_body]
pub struct DecodedMessage {
    pub inner: Box<dyn protobuf::MessageDyn>,
}

/// What came of reading a payload as one message type: the message, or the
/// reason in words why it is none.
pub struct Attempt {
    pub candidate: MessageDescriptor,
    pub outcome: Result<DecodedMessage, String>,
}

/// Why a payload is not a message of some type.
#[derive(Debug)]
pub struct Failure {
    pub message_name: String,
    pub reason: String,
}

/// What trying a payload against every declared type gave.
pub struct Decoding {
    /// The messages, in the order in which their types are declared.
    pub messages: Vec<DecodedMessage>,
    /// A diagnostic for each type that the payload is no message of, in the
    /// order in which the types are declared.
    pub failures: Vec<Failure>,
}

/// The printer is to render enum values by their names, not their numbers.
pub const ENUM_VALUES_INT: bool = false;

/// The printer is to render fields under the names that the schema gives
/// them.
pub const PROTO_FIELD_NAME: bool = true;

/// The printer is to render fields that hold their default value too.
pub const ALWAYS_OUTPUT_DEFAULT_VALUES: bool = true;

/// The message types that a file declares at its top level, in the order of
/// their declaration.
pub uninterp spec fn declared_messages(fd: FileDescriptor) -> Seq<MessageDescriptor>;

/// The name of a message type as its file spells it.
pub uninterp spec fn message_name(md: MessageDescriptor) -> Seq<char>;

/// `protobuf::reflect::FileDescriptor::messages`: the top-level message
/// types of the file, in the order in which the file declares them.
#[verifier::external_body]
fn top_level_messages(fd: &FileDescriptor) -> (mds: Vec<MessageDescriptor>)
    ensures
        mds@ == declared_messages(*fd),
{
    fd.messages().collect()
}

/// `protobuf::reflect::MessageDescriptor::name`.
#[verifier::external_body]
fn name_of_message(md: &MessageDescriptor) -> (name: String)
    ensures
        name@ == message_name(*md),
{
    md.name().to_string()
}

/// Whether an attempt gave a message.
pub open spec fn gave_message() -> spec_fn(Attempt) -> bool {
    |a: Attempt| a.outcome is Ok
}

/// Whether an attempt gave none.
pub open spec fn gave_none() -> spec_fn(Attempt) -> bool {
    |a: Attempt| a.outcome is Err
}

/// The message that an attempt gave.
pub open spec fn message_of() -> spec_fn(Attempt) -> DecodedMessage {
    |a: Attempt| a.outcome->Ok_0
}

/// The name of the type that was tried, and the reason why the payload is no
/// message of it.
pub open spec fn failure_of() -> spec_fn(Attempt) -> (Seq<char>, Seq<char>) {
    |a: Attempt| (message_name(a.candidate), a.outcome->Err_0@)
}

/// The messages that the attempts gave, in the order of the attempts: one
/// for each that gave one.
pub open spec fn decode_all(attempts: Seq<Attempt>) -> Seq<DecodedMessage> {
    attempts.filter(gave_message()).map_values(message_of())
}

/// The types that the payload is no message of, each by its name and with
/// the reason, in the order of the attempts.
pub open spec fn failures_of(attempts: Seq<Attempt>) -> Seq<(Seq<char>, Seq<char>)> {
    attempts.filter(gave_none()).map_values(failure_of())
}

/// What a diagnostic says, as text.
pub open spec fn failure_view(f: Failure) -> (Seq<char>, Seq<char>) {
    (f.message_name@, f.reason@)
}

/// What diagnostics say, as text.
pub open spec fn failure_views(fs: Seq<Failure>) -> Seq<(Seq<char>, Seq<char>)> {
    fs.map_values(|f: Failure| failure_view(f))
}

/// Whether `attempts` answer `candidates`: there is one attempt for each
/// candidate, in their order, each on a type of the candidate's name.
pub open spec fn answers(attempts: Seq<Attempt>, candidates: Seq<MessageDescriptor>) -> bool {
    &&& attempts.len() == candidates.len()
    &&& forall|i: int|
        0 <= i < attempts.len() ==> message_name((#[trigger] attempts[i]).candidate)
            == message_name(candidates[i])
}

proof fn lemma_filter_take<A>(s: Seq<A>, pred: spec_fn(A) -> bool, i: int)
    requires
        0 <= i < s.len(),
    ensures
        s.take(i + 1).filter(pred) == if pred(s[i]) {
            s.take(i).filter(pred).push(s[i])
        } else {
            s.take(i).filter(pred)
        },
{
    reveal(Seq::filter);
    assert(s.take(i + 1).drop_last() =~= s.take(i));
}

impl ProtobufFileDescriptors {
    /// The message types that a payload of the schema `schema_id` is to be
    /// tried against, in the order in which they are to be tried: those that
    /// the cached descriptor declares, in the order of their declaration.
    /// There are none to try where the cache holds no descriptor.
    pub fn candidates(&self, schema_id: i32) -> (r: Result<Vec<MessageDescriptor>, Error>)
        ensures
            match r {
                Ok(mds) => self.cached().contains_key(schema_id) && mds@ == declared_messages(
                    self.cached()[schema_id],
                ),
                Err(e) => !self.cached().contains_key(schema_id) && e == Error::Protobuf(
                    ProtobufError::CouldNotFindFileDescriptorForSchema(schema_id),
                ),
            },
    {
        match self.get(schema_id) {
            Some(fd) => Ok(top_level_messages(fd)),
            None => Err(
                Error::Protobuf(ProtobufError::CouldNotFindFileDescriptorForSchema(schema_id)),
            ),
        }
    }

    /// Sorts what the attempts gave, keeping their order: the messages on
    /// one side, a diagnostic for each failure on the other. Never fails: a
    /// payload that is a message of no type gives no message.
    fn parse_message(attempts: Vec<Attempt>) -> (out: Decoding)
        ensures
            out.messages@ == decode_all(attempts@),
            failure_views(out.failures@) == failures_of(attempts@),
    {
        let ghost all = attempts@;
        let mut messages: Vec<DecodedMessage> = Vec::new();
        let mut failures: Vec<Failure> = Vec::new();
        proof {
            reveal(Seq::filter);
            assert(all.take(0).filter(gave_message()) =~= Seq::empty());
            assert(all.take(0).filter(gave_none()) =~= Seq::empty());
        }
        for a in it: attempts.into_iter()
            invariant
                it.seq() == all,
                messages@ =~= decode_all(all.take(it.index() as int)),
                failure_views(failures@) =~= failures_of(all.take(it.index() as int)),
        {
            proof {
                lemma_filter_take(all, gave_message(), it.index() as int);
                lemma_filter_take(all, gave_none(), it.index() as int);
            }
            let Attempt { candidate, outcome } = a;
            match outcome {
                Ok(parsed) => {
                    messages.push(parsed);
                },
                Err(reason) => {
                    let ghost earlier = failures@;
                    let failure = Failure { message_name: name_of_message(&candidate), reason };
                    failures.push(failure);
                    assert(failure_views(failures@) =~= failure_views(earlier).push(
                        failure_view(failure),
                    ));
                },
            }
        }
        assert(all.take(all.len() as int) =~= all);
        Decoding { messages, failures }
    }

    /// Whether there is one attempt for each candidate, in their order, each
    /// on a type of the candidate's name.
    fn check_attempts(attempts: &Vec<Attempt>, candidates: &Vec<MessageDescriptor>) -> (ok: bool)
        ensures
            ok == answers(attempts@, candidates@),
    {
        if attempts.len() != candidates.len() {
            return false;
        }
        let mut i: usize = 0;
        while i < attempts.len()
            invariant
                i <= attempts.len(),
                attempts.len() == candidates.len(),
                forall|k: int|
                    0 <= k < i ==> message_name((#[trigger] attempts@[k]).candidate)
                        == message_name(candidates@[k]),
            decreases attempts.len() - i,
        {
            let tried = name_of_message(&attempts[i].candidate);
            let named = name_of_message(&candidates[i]);
            if tried != named {
                return false;
            }
            i = i + 1;
        }
        true
    }

    /// Takes in what trying a payload of the schema `schema_id` gave, and
    /// sorts it: the messages on one side, a diagnostic for each failure on
    /// the other, both in the order in which the types are declared. The
    /// cache must hold the descriptor of the schema, and the attempts must be
    /// one for each message type that it declares, in the order of their
    /// declaration. A payload that is a message of no type gives no message,
    /// and no error.
    pub fn parse(&self, schema_id: i32, attempts: Vec<Attempt>) -> (r: Result<Decoding, Error>)
        ensures
            if !self.cached().contains_key(schema_id) {
                r matches Err(e) && e == Error::Protobuf(
                    ProtobufError::CouldNotFindFileDescriptorForSchema(schema_id),
                )
            } else if !answers(attempts@, declared_messages(self.cached()[schema_id])) {
                r matches Err(e) && e == Error::Protobuf(
                    ProtobufError::AttemptsDoNotMatch(schema_id),
                )
            } else {
                r matches Ok(out) && out.messages@ == decode_all(attempts@) && failure_views(
                    out.failures@,
                ) == failures_of(attempts@)
            },
    {
        let candidates = match self.candidates(schema_id) {
            Ok(candidates) => candidates,
            Err(e) => {
                return Err(e);
            },
        };
        if !Self::check_attempts(&attempts, &candidates) {
            return Err(Error::Protobuf(ProtobufError::AttemptsDoNotMatch(schema_id)));
        }
        Ok(Self::parse_message(attempts))
    }
}

/// Where among the attempts those stand that gave a message, in rising
/// order.
pub open spec fn parsing_positions(attempts: Seq<Attempt>) -> Seq<int>
    decreases attempts.len(),
{
    if attempts.len() == 0 {
        Seq::empty()
    } else if attempts.last().outcome is Ok {
        parsing_positions(attempts.drop_last()).push(attempts.len() - 1)
    } else {
        parsing_positions(attempts.drop_last())
    }
}

/// As many messages come out as there are types that the payload parses
/// under, and as many diagnostics as there are other types. The messages
/// stand in the order in which their types were tried, which is that of
/// their declaration: the message at each place is what the attempt at the
/// next place gave, in rising order; and no attempt that gave a message is
/// left out.
pub proof fn one_message_for_each_type_that_parses(attempts: Seq<Attempt>)
    ensures
        decode_all(attempts).len() == parsing_positions(attempts).len(),
        decode_all(attempts).len() + failures_of(attempts).len() == attempts.len(),
        forall|k: int|
            0 <= k < parsing_positions(attempts).len() ==> {
                let i = #[trigger] parsing_positions(attempts)[k];
                &&& 0 <= i < attempts.len()
                &&& attempts[i].outcome == Ok::<DecodedMessage, String>(decode_all(attempts)[k])
            },
        forall|k: int, l: int|
            0 <= k < l < parsing_positions(attempts).len() ==> parsing_positions(attempts)[k]
                < parsing_positions(attempts)[l],
        forall|i: int|
            0 <= i < attempts.len() && (#[trigger] attempts[i]).outcome is Ok
                ==> parsing_positions(attempts).contains(i),
    decreases attempts.len(),
{
    reveal(Seq::filter);
    if attempts.len() > 0 {
        let shorter = attempts.drop_last();
        let last = attempts.len() - 1;
        one_message_for_each_type_that_parses(shorter);
        let before = parsing_positions(shorter);
        let now = parsing_positions(attempts);
        assert forall|k: int| 0 <= k < now.len() implies {
            let i = #[trigger] now[k];
            &&& 0 <= i < attempts.len()
            &&& attempts[i].outcome == Ok::<DecodedMessage, String>(decode_all(attempts)[k])
        } by {
            if k < before.len() {
                let i = before[k];
                assert(shorter[i] == attempts[i]);
                assert(decode_all(attempts)[k] == decode_all(shorter)[k]);
            }
        }
        assert forall|k: int, l: int| 0 <= k < l < now.len() implies now[k] < now[l] by {
            if l == before.len() {
                assert(before[k] < shorter.len());
            }
        }
        assert forall|i: int|
            0 <= i < attempts.len() && (#[trigger] attempts[i]).outcome is Ok implies now.contains(
            i,
        ) by {
            if i < last {
                assert(shorter[i] == attempts[i]);
                assert(before.contains(i));
                let k = choose|k: int| 0 <= k < before.len() && before[k] == i;
                assert(now[k] == i);
            } else {
                assert(now[now.len() - 1] == i);
            }
        }
    }
}

/// Whether every rendering came off.
pub open spec fn all_rendered(rendered: Seq<Result<String, PrintError>>) -> bool {
    forall|i: int| 0 <= i < rendered.len() ==> (#[trigger] rendered[i]) is Ok
}

/// The lines of renderings that all came off: each text without the white
/// space between its tokens.
pub open spec fn lines_of(rendered: Seq<Result<String, PrintError>>) -> Seq<Seq<char>> {
    rendered.map_values(|r: Result<String, PrintError>| compact_text(r->Ok_0@))
}

/// What strings spell.
pub open spec fn spelled(lines: Seq<String>) -> Seq<Seq<char>> {
    lines.map_values(|s: String| s@)
}

/// Whether `r` is what gathering the lines of `count` messages from
/// `rendered` gives: all the lines in their order where there is a rendering
/// for every message and every rendering came off, and a failure where not.
pub open spec fn gathered(
    count: nat,
    rendered: Seq<Result<String, PrintError>>,
    r: Result<Vec<String>, Error>,
) -> bool {
    if rendered.len() == count && all_rendered(rendered) {
        r matches Ok(out) && spelled(out@) == lines_of(rendered)
    } else {
        r matches Err(e) && e == Error::JsonPrint
    }
}

/// There is a line for every message, in the order of the messages, each of
/// them what the printer gave for the message at its place without the white
/// space between tokens; or there is none at all, and a failure.
pub proof fn one_line_for_each_message(
    count: nat,
    rendered: Seq<Result<String, PrintError>>,
    r: Result<Vec<String>, Error>,
)
    requires
        gathered(count, rendered, r),
    ensures
        r matches Ok(lines) ==> {
            &&& lines@.len() == count
            &&& forall|i: int|
                0 <= i < count ==> rendered[i] is Ok && (#[trigger] lines@[i])@ == compact_text(
                    rendered[i]->Ok_0@,
                )
        },
        r matches Err(e) ==> e == Error::JsonPrint,
{
    if let Ok(lines) = r {
        assert(spelled(lines@).len() == lines_of(rendered).len());
        assert forall|i: int| 0 <= i < count implies rendered[i] is Ok && (#[trigger] lines@[i])@
            == compact_text(rendered[i]->Ok_0@) by {
            assert(spelled(lines@)[i] == lines_of(rendered)[i]);
        }
    }
}

/// Gathers the JSON lines of the messages of one payload from what the
/// printer gave for each of them, in their order: each rendering without the
/// white space between its tokens. There are lines where there is a rendering
/// for every message and every rendering came off; one message that is not
/// rendered fails them all.
pub fn to_json_strings(
    msg: &Vec<DecodedMessage>,
    rendered: &Vec<Result<String, PrintError>>,
) -> (r: Result<Vec<String>, Error>)
    ensures
        gathered(msg@.len(), rendered@, r),
{
    if rendered.len() != msg.len() {
        return Err(Error::JsonPrint);
    }
    let mut out: Vec<String> = Vec::new();
    let mut i: usize = 0;
    while i < rendered.len()
        invariant
            i <= rendered.len(),
            rendered@.len() == msg@.len(),
            all_rendered(rendered@.take(i as int)),
            spelled(out@) =~= lines_of(rendered@.take(i as int)),
        decreases rendered.len() - i,
    {
        let ghost earlier = out@;
        match &rendered[i] {
            Ok(text) => {
                out.push(compact_json(text.as_str()));
            },
            Err(_) => {
                assert(!(rendered@[i as int] is Ok));
                return Err(Error::JsonPrint);
            },
        }
        i = i + 1;
        proof {
            assert(rendered@.take(i as int).drop_last() =~= rendered@.take(i - 1));
            assert forall|j: int| 0 <= j < i implies (#[trigger] rendered@.take(i as int)[j])
                is Ok by {
                if j < i - 1 {
                    assert(rendered@.take(i - 1)[j] is Ok);
                }
            }
            assert(spelled(out@) =~= spelled(earlier).push(out@[i - 1]@));
            assert(lines_of(rendered@.take(i as int)) =~= lines_of(rendered@.take(i - 1)).push(
                compact_text(rendered@[i - 1]->Ok_0@),
            ));
        }
    }
    assert(rendered@.take(i as int) =~= rendered@);
    Ok(out)
}

} // verus!
