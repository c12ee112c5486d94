use proto2json::confluent::Schema;
use proto2json::decode::{
    to_json_strings, Attempt, DecodedMessage, Decoding, ALWAYS_OUTPUT_DEFAULT_VALUES,
    ENUM_VALUES_INT, PROTO_FIELD_NAME,
};
use proto2json::descriptors::{find_schema, Linking, ProtobufFileDescriptors, Staging};
use proto2json::error::{Error, ProtobufError};
use proto2json::kafka::parse;
use proto2json::msg::Msg;
use proto2json::proto2json::{Progress, Proto2Json};
use protobuf::descriptor::field_descriptor_proto::{Label, Type};
use protobuf::descriptor::{
    DescriptorProto, EnumDescriptorProto, EnumValueDescriptorProto, FieldDescriptorProto,
    FileDescriptorProto,
};
use protobuf::reflect::{FileDescriptor, MessageDescriptor};
use protobuf_json_mapping::{PrintError, PrintOptions};

fn field(name: &str, number: i32, label: Label, kind: Type) -> FieldDescriptorProto {
    let mut f = FieldDescriptorProto::new();
    f.set_name(name.to_string());
    f.set_number(number);
    f.set_label(label);
    f.set_type(kind);
    f
}

fn typed_field(name: &str, number: i32, kind: Type, named: &str) -> FieldDescriptorProto {
    let mut f = field(name, number, Label::LABEL_OPTIONAL, kind);
    f.set_type_name(named.to_string());
    f
}

fn message(name: &str, fields: Vec<FieldDescriptorProto>) -> DescriptorProto {
    let mut m = DescriptorProto::new();
    m.set_name(name.to_string());
    m.field = fields;
    m
}

fn file(name: &str, messages: Vec<DescriptorProto>) -> FileDescriptorProto {
    let mut f = FileDescriptorProto::new();
    f.set_name(name.to_string());
    f.message_type = messages;
    f
}

/// What a compiler makes of `message M { optional string a = 1; }`.
fn m_with_string_a(file_name: &str) -> FileDescriptorProto {
    file(
        file_name,
        vec![message(
            "M",
            vec![field("a", 1, Label::LABEL_OPTIONAL, Type::TYPE_STRING)],
        )],
    )
}

fn three_types(file_name: &str) -> FileDescriptorProto {
    file(
        file_name,
        vec![
            message(
                "Text",
                vec![field("a", 1, Label::LABEL_OPTIONAL, Type::TYPE_STRING)],
            ),
            message(
                "Number",
                vec![field("a", 1, Label::LABEL_OPTIONAL, Type::TYPE_INT32)],
            ),
            message(
                "Strict",
                vec![field("b", 2, Label::LABEL_REQUIRED, Type::TYPE_STRING)],
            ),
        ],
    )
}

fn schema(id: i32, text: &str) -> Schema {
    Schema {
        id,
        version: 1,
        schema_type: "PROTOBUF".to_string(),
        subject: format!("subject-{}", id),
        references: None,
        schema: text.to_string(),
    }
}

fn envelope(schema_id: i32, payload: &[u8]) -> Vec<u8> {
    let mut out = vec![0u8];
    out.extend_from_slice(&schema_id.to_be_bytes());
    out.push(0x00);
    out.extend_from_slice(payload);
    out
}

fn record(payload: &[u8]) -> Msg {
    parse("topic".to_string(), 0, 0, 0, None, Some(payload))
}

/// Links what a compiler gave, file by file, as a driver does.
fn link(staged: &str, compiled: Vec<FileDescriptorProto>) -> Linking {
    let mut linking = Linking::new(staged.to_string());
    for fdp in compiled {
        if linking.is_done() {
            break;
        }
        let name = fdp.name.clone();
        let descriptor = FileDescriptor::new_dynamic(fdp, linking.deps()).ok();
        linking.offer(name, descriptor);
    }
    linking
}

/// Reads `value` as each of the message types, as a driver does.
fn attempt(candidates: Vec<MessageDescriptor>, value: &[u8]) -> Vec<Attempt> {
    candidates
        .into_iter()
        .map(|candidate| {
            let outcome = match candidate.parse_from_bytes(value) {
                Ok(inner) => Ok(DecodedMessage { inner }),
                Err(e) => Err(e.to_string()),
            };
            Attempt { candidate, outcome }
        })
        .collect()
}

/// Prints each of the messages as JSON, as a driver does.
fn render(messages: &[DecodedMessage]) -> Vec<Result<String, PrintError>> {
    let options = PrintOptions {
        enum_values_int: ENUM_VALUES_INT,
        proto_field_name: PROTO_FIELD_NAME,
        always_output_default_values: ALWAYS_OUTPUT_DEFAULT_VALUES,
        _future_options: (),
    };
    messages
        .iter()
        .map(|m| protobuf_json_mapping::print_to_string_with_options(&*m.inner, &options))
        .collect()
}

fn lines_of(decoding: &Decoding) -> Result<Vec<String>, Error> {
    to_json_strings(&decoding.messages, &render(&decoding.messages))
}

/// Takes one record through the pipeline, with `compiled` for what the
/// compiler gives where it is asked.
fn run(
    p: &mut Proto2Json,
    msg: &Msg,
    compiled: Vec<FileDescriptorProto>,
) -> Result<Vec<String>, Error> {
    let (schema_id, value, candidates) = match p.proto2json(msg)? {
        Progress::Decode {
            schema_id,
            value,
            candidates,
        } => (schema_id, value, candidates),
        Progress::Compile {
            schema_id,
            file_name,
            value,
            ..
        } => {
            let staged = format!("{}/{}", p.staging_dir(), file_name);
            let candidates = p.install(schema_id, link(&staged, compiled))?;
            (schema_id, value, candidates)
        }
    };
    lines_of(&p.parse(schema_id, attempt(candidates, &value))?)
}

fn cached(files: Vec<FileDescriptorProto>, staged: &str) -> ProtobufFileDescriptors {
    let mut cache = ProtobufFileDescriptors::new();
    cache.install(1, link(staged, files)).unwrap();
    cache
}

fn decode(cache: &ProtobufFileDescriptors, id: i32, value: &[u8]) -> Result<Vec<String>, Error> {
    lines_of(&cache.parse(id, attempt(cache.candidates(id)?, value))?)
}

#[test]
fn end_to_end_one_record_gives_one_line() {
    let text = "message M { optional string a = 1; }";
    let mut p = Proto2Json::load(None, None, Some(vec![schema(7, text)]), None).unwrap();
    let msg = record(&envelope(7, &[0x0a, 0x01, 0x78]));

    let (schema_id, file_name, schema_text, value) = match p.proto2json(&msg).unwrap() {
        Progress::Compile {
            schema_id,
            file_name,
            schema,
            value,
        } => (schema_id, file_name, schema, value),
        Progress::Decode { .. } => panic!("nothing is compiled yet"),
    };
    assert_eq!(schema_id, 7);
    assert_eq!(file_name, "temp-schema-7.proto");
    assert_eq!(schema_text, text);
    assert_eq!(value, vec![0x0a, 0x01, 0x78]);
    assert_eq!(p.staging_dir(), ".");

    let staged = format!("{}/{}", p.staging_dir(), file_name);
    let compiled = vec![m_with_string_a(&file_name)];
    let candidates = p.install(schema_id, link(&staged, compiled)).unwrap();
    let names: Vec<&str> = candidates.iter().map(|c| c.name()).collect();
    assert_eq!(names, vec!["M"]);
    let decoding = p.parse(schema_id, attempt(candidates, &value)).unwrap();
    assert_eq!(decoding.messages.len(), 1);
    assert!(decoding.failures.is_empty());
    let out = to_json_strings(&decoding.messages, &render(&decoding.messages)).unwrap();
    assert_eq!(out, vec!["{\"a\":\"x\"}".to_string()]);
}

#[test]
fn schema_is_compiled_once_and_its_descriptor_reused() {
    let mut p = Proto2Json::load(None, None, Some(vec![schema(7, "text")]), None).unwrap();
    let first = record(&envelope(7, &[0x0a, 0x01, 0x78]));
    let second = record(&envelope(7, &[0x0a, 0x02, 0x79, 0x7a]));

    assert!(matches!(
        p.proto2json(&first),
        Ok(Progress::Compile { schema_id: 7, .. })
    ));
    assert_eq!(
        run(&mut p, &first, vec![m_with_string_a("temp-schema-7.proto")]),
        Ok(vec!["{\"a\":\"x\"}".to_string()])
    );

    assert!(matches!(
        p.proto2json(&second),
        Ok(Progress::Decode { schema_id: 7, .. })
    ));
    assert_eq!(
        run(&mut p, &second, vec![]),
        Ok(vec!["{\"a\":\"yz\"}".to_string()])
    );
    assert_eq!(
        run(&mut p, &first, vec![]),
        Ok(vec!["{\"a\":\"x\"}".to_string()])
    );

    let other = vec![file(
        "temp-schema-7.proto",
        vec![message(
            "Other",
            vec![field("zzz", 1, Label::LABEL_OPTIONAL, Type::TYPE_STRING)],
        )],
    )];
    let candidates = p.install(7, link("temp-schema-7.proto", other)).unwrap();
    let names: Vec<&str> = candidates.iter().map(|c| c.name()).collect();
    assert_eq!(names, vec!["M"]);
    let candidates = p.install(7, link("temp-schema-7.proto", vec![])).unwrap();
    assert_eq!(candidates.len(), 1);
}

#[test]
fn cache_keeps_the_first_descriptor_of_an_identifier() {
    let catalog = vec![schema(7, "seven"), schema(8, "eight")];
    let mut cache = ProtobufFileDescriptors::new();
    assert!(!cache.contains(7));
    assert!(cache.get(7).is_none());
    assert!(matches!(
        cache.resolve(&catalog, 7),
        Ok(Staging::Stage { file_name, schema }) if file_name == "temp-schema-7.proto" && schema == "seven"
    ));

    let compiled = vec![m_with_string_a("temp-schema-7.proto")];
    assert_eq!(cache.install(7, link("./temp-schema-7.proto", compiled)), Ok(()));
    assert!(cache.contains(7));
    assert!(!cache.contains(8));
    assert!(matches!(cache.resolve(&catalog, 7), Ok(Staging::Cached)));
    assert!(matches!(cache.resolve(&vec![], 7), Ok(Staging::Cached)));
    let first = cache.get(7).unwrap().clone();

    let other = vec![three_types("temp-schema-7.proto")];
    assert_eq!(cache.install(7, link("temp-schema-7.proto", other)), Ok(()));
    assert_eq!(cache.install(7, link("temp-schema-7.proto", vec![])), Ok(()));
    assert!(cache.get(7).unwrap() == &first);
    assert_eq!(cache.candidates(7).unwrap().len(), 1);

    assert!(matches!(
        cache.resolve(&catalog, 8),
        Ok(Staging::Stage { file_name, schema }) if file_name == "temp-schema-8.proto" && schema == "eight"
    ));
    let eight = vec![three_types("temp-schema-8.proto")];
    assert_eq!(cache.install(8, link("temp-schema-8.proto", eight)), Ok(()));
    assert!(cache.get(7).unwrap() == &first);
    assert_eq!(cache.candidates(8).unwrap().len(), 3);
}

#[test]
fn schema_that_the_catalog_lacks_is_not_found() {
    let p = Proto2Json::load(None, None, Some(vec![schema(7, "text")]), None).unwrap();
    let msg = record(&envelope(9, &[0x0a, 0x01, 0x78]));
    assert!(matches!(
        p.proto2json(&msg),
        Err(Error::Protobuf(ProtobufError::SchemaNotFound(9)))
    ));
    let cache = ProtobufFileDescriptors::new();
    assert!(matches!(
        cache.resolve(&vec![schema(7, "text")], -1),
        Err(Error::Protobuf(ProtobufError::SchemaNotFound(-1)))
    ));
}

#[test]
fn catalog_that_could_not_be_fetched_finds_no_schema() {
    let p = Proto2Json::load(None, None, None, None).unwrap();
    assert!(p.schemas().is_empty());
    let msg = record(&envelope(7, &[0x0a, 0x01, 0x78]));
    assert!(matches!(
        p.proto2json(&msg),
        Err(Error::Protobuf(ProtobufError::SchemaNotFound(7)))
    ));
}

#[test]
fn descriptor_that_the_compiler_did_not_give_is_not_found() {
    let mut p = Proto2Json::load(None, None, Some(vec![schema(7, "text")]), None).unwrap();
    let msg = record(&envelope(7, &[0x0a, 0x01, 0x78]));
    let not_found = Err(Error::Protobuf(
        ProtobufError::CouldNotFindFileDescriptorForSchema(7),
    ));
    assert_eq!(run(&mut p, &msg, vec![]), not_found);
    assert_eq!(
        run(&mut p, &msg, vec![m_with_string_a("temp-schema-8.proto")]),
        not_found
    );
    let nameless = {
        let mut f = m_with_string_a("x");
        f.clear_name();
        f
    };
    assert_eq!(run(&mut p, &msg, vec![nameless]), not_found);
    assert!(matches!(
        p.proto2json(&msg),
        Ok(Progress::Compile { schema_id: 7, .. })
    ));

    let cache = ProtobufFileDescriptors::new();
    assert!(matches!(
        cache.candidates(7),
        Err(Error::Protobuf(
            ProtobufError::CouldNotFindFileDescriptorForSchema(7)
        ))
    ));
    assert_eq!(
        cache.parse(7, vec![]).err(),
        Some(Error::Protobuf(
            ProtobufError::CouldNotFindFileDescriptorForSchema(7)
        ))
    );
    assert!(matches!(
        ProtobufFileDescriptors::get_file_descriptor(link("a.proto", vec![]), 5),
        Err(Error::Protobuf(
            ProtobufError::CouldNotFindFileDescriptorForSchema(5)
        ))
    ));
}

#[test]
fn staged_file_is_found_whatever_side_has_the_dot_slash() {
    let payload = [0x0a, 0x01, 0x78];
    let cases = [
        ("temp-schema-7.proto", "temp-schema-7.proto"),
        ("./temp-schema-7.proto", "temp-schema-7.proto"),
        ("temp-schema-7.proto", "./temp-schema-7.proto"),
        ("./temp-schema-7.proto", "./temp-schema-7.proto"),
        ("dir/temp-schema-7.proto", "./dir/temp-schema-7.proto"),
    ];
    for (name, staged) in cases {
        let mut cache = ProtobufFileDescriptors::new();
        assert_eq!(
            cache.install(7, link(staged, vec![m_with_string_a(name)])),
            Ok(())
        );
        assert_eq!(decode(&cache, 7, &payload).unwrap().len(), 1);
    }
    let mut cache = ProtobufFileDescriptors::new();
    assert!(cache
        .install(
            7,
            link("dir/temp-schema-7.proto", vec![m_with_string_a("temp-schema-7.proto")])
        )
        .is_err());
}

#[test]
fn linking_keeps_what_links_until_the_staged_file_is_found() {
    let mut linking = Linking::new("./s.proto".to_string());
    assert!(!linking.is_done());
    assert!(linking.deps().is_empty());

    assert!(!linking.offer(Some("a.proto".to_string()), None));
    assert!(linking.deps().is_empty());
    assert!(!linking.offer(Some("s.proto".to_string()), None));
    assert!(!linking.is_done());

    let a = FileDescriptor::new_dynamic(m_with_string_a("a.proto"), &[]).unwrap();
    assert!(!linking.offer(Some("a.proto".to_string()), Some(a.clone())));
    assert_eq!(linking.deps().len(), 1);
    let nameless = FileDescriptor::new_dynamic(m_with_string_a("n.proto"), &[]).unwrap();
    assert!(!linking.offer(None, Some(nameless)));
    assert_eq!(linking.deps().len(), 2);

    let s = FileDescriptor::new_dynamic(three_types("s.proto"), &[]).unwrap();
    assert!(linking.offer(Some("s.proto".to_string()), Some(s.clone())));
    assert!(linking.is_done());
    assert_eq!(linking.deps().len(), 2);

    let later = FileDescriptor::new_dynamic(m_with_string_a("s.proto"), &[]).unwrap();
    assert!(linking.offer(Some("s.proto".to_string()), Some(later)));
    assert!(linking.offer(Some("b.proto".to_string()), Some(a)));
    assert_eq!(linking.deps().len(), 2);
    let found = ProtobufFileDescriptors::get_file_descriptor(linking, 1).unwrap();
    assert!(found == s);
}

#[test]
fn imported_files_are_linked_before_the_staged_one() {
    let mut dep = file(
        "dep.proto",
        vec![message(
            "Inner",
            vec![field("n", 1, Label::LABEL_OPTIONAL, Type::TYPE_INT32)],
        )],
    );
    dep.set_package("lib".to_string());
    let mut main = file(
        "temp-schema-7.proto",
        vec![message(
            "Outer",
            vec![typed_field("inner", 1, Type::TYPE_MESSAGE, ".lib.Inner")],
        )],
    );
    main.dependency.push("dep.proto".to_string());

    let mut cache = ProtobufFileDescriptors::new();
    assert_eq!(
        cache.install(7, link("./temp-schema-7.proto", vec![dep.clone(), main.clone()])),
        Ok(())
    );
    assert_eq!(
        decode(&cache, 7, &[0x0a, 0x02, 0x08, 0x05]),
        Ok(vec!["{\"inner\":{\"n\":5}}".to_string()])
    );

    let mut cache = ProtobufFileDescriptors::new();
    assert_eq!(
        cache.install(8, link("temp-schema-7.proto", vec![main.clone(), dep.clone()])),
        Err(Error::Protobuf(
            ProtobufError::CouldNotFindFileDescriptorForSchema(8)
        ))
    );
    assert!(!cache.contains(8));

    let mut cache = ProtobufFileDescriptors::new();
    assert_eq!(
        cache.install(9, link("temp-schema-7.proto", vec![main.clone(), dep, main])),
        Ok(())
    );
    assert!(cache.contains(9));
}

#[test]
fn payload_is_tried_against_every_declared_type_in_order() {
    let cache = cached(vec![three_types("s.proto")], "s.proto");
    let names: Vec<String> = cache
        .candidates(1)
        .unwrap()
        .iter()
        .map(|c| c.name().to_string())
        .collect();
    assert_eq!(names, vec!["Text", "Number", "Strict"]);

    let out = cache
        .parse(1, attempt(cache.candidates(1).unwrap(), &[0x0a, 0x01, 0x78]))
        .unwrap();
    assert_eq!(out.messages.len(), 1);
    assert_eq!(lines_of(&out), Ok(vec!["{\"a\":\"x\"}".to_string()]));
    let failed: Vec<&str> = out.failures.iter().map(|f| f.message_name.as_str()).collect();
    assert_eq!(failed, vec!["Number", "Strict"]);
    assert!(out.failures.iter().all(|f| !f.reason.is_empty()));

    let out = cache
        .parse(1, attempt(cache.candidates(1).unwrap(), &[]))
        .unwrap();
    assert_eq!(
        lines_of(&out),
        Ok(vec!["{\"a\":\"\"}".to_string(), "{\"a\":0}".to_string()])
    );
    let failed: Vec<&str> = out.failures.iter().map(|f| f.message_name.as_str()).collect();
    assert_eq!(failed, vec!["Strict"]);

    let out = cache
        .parse(
            1,
            attempt(
                cache.candidates(1).unwrap(),
                &[0x08, 0x2a, 0x12, 0x02, 0x68, 0x69],
            ),
        )
        .unwrap();
    assert_eq!(
        lines_of(&out),
        Ok(vec!["{\"a\":42}".to_string(), "{\"b\":\"hi\"}".to_string()])
    );
    let failed: Vec<&str> = out.failures.iter().map(|f| f.message_name.as_str()).collect();
    assert_eq!(failed, vec!["Text"]);

    let out = cache
        .parse(1, attempt(cache.candidates(1).unwrap(), &[0xff]))
        .unwrap();
    assert!(out.messages.is_empty());
    assert_eq!(out.failures.len(), 3);
    assert_eq!(lines_of(&out), Ok(vec![]));
}

#[test]
fn attempts_must_answer_the_declared_types_in_their_order() {
    let cache = cached(vec![three_types("s.proto")], "s.proto");
    let wrong = Some(Error::Protobuf(ProtobufError::AttemptsDoNotMatch(1)));
    let payload = [0x0a, 0x01, 0x78];

    assert_eq!(cache.parse(1, vec![]).err(), wrong);

    let mut too_few = attempt(cache.candidates(1).unwrap(), &payload);
    too_few.pop();
    assert_eq!(cache.parse(1, too_few).err(), wrong);

    let mut too_many = attempt(cache.candidates(1).unwrap(), &payload);
    too_many.extend(attempt(cache.candidates(1).unwrap(), &payload));
    assert_eq!(cache.parse(1, too_many).err(), wrong);

    let mut out_of_order = attempt(cache.candidates(1).unwrap(), &payload);
    out_of_order.swap(0, 2);
    assert_eq!(cache.parse(1, out_of_order).err(), wrong);

    let other = cached(vec![m_with_string_a("o.proto")], "o.proto");
    let mut of_another_schema = attempt(other.candidates(1).unwrap(), &payload);
    of_another_schema.extend(attempt(other.candidates(1).unwrap(), &payload));
    of_another_schema.extend(attempt(other.candidates(1).unwrap(), &payload));
    assert_eq!(cache.parse(1, of_another_schema).err(), wrong);

    let right = attempt(cache.candidates(1).unwrap(), &payload);
    assert_eq!(cache.parse(1, right).unwrap().messages.len(), 1);

    let empty = cached(vec![file("e.proto", vec![])], "e.proto");
    let out = empty.parse(1, vec![]).unwrap();
    assert!(out.messages.is_empty());
    assert!(out.failures.is_empty());
}

#[test]
fn there_must_be_a_rendering_for_every_message() {
    let cache = cached(vec![three_types("s.proto")], "s.proto");
    let out = cache
        .parse(1, attempt(cache.candidates(1).unwrap(), &[]))
        .unwrap();
    assert_eq!(out.messages.len(), 2);
    let mut rendered = render(&out.messages);
    assert_eq!(
        to_json_strings(&out.messages, &rendered),
        Ok(vec!["{\"a\":\"\"}".to_string(), "{\"a\":0}".to_string()])
    );
    rendered.pop();
    assert_eq!(
        to_json_strings(&out.messages, &rendered),
        Err(Error::JsonPrint)
    );
    assert_eq!(
        to_json_strings(&out.messages, &vec![]),
        Err(Error::JsonPrint)
    );
    let mut rendered = render(&out.messages);
    rendered.push(Ok("{}".to_string()));
    assert_eq!(
        to_json_strings(&out.messages, &rendered),
        Err(Error::JsonPrint)
    );
    let mut rendered = render(&out.messages);
    rendered[1] = Err(PrintError::from(std::fmt::Error));
    assert_eq!(
        to_json_strings(&out.messages, &rendered),
        Err(Error::JsonPrint)
    );
    assert_eq!(to_json_strings(&vec![], &vec![]), Ok(vec![]));
}

#[test]
fn payload_that_is_no_message_gives_no_line_and_no_error() {
    let mut p = Proto2Json::load(None, None, Some(vec![schema(1, "text")]), None).unwrap();
    let compiled = vec![three_types("temp-schema-1.proto")];
    assert_eq!(
        run(&mut p, &record(&envelope(1, &[0xff])), compiled),
        Ok(vec![])
    );
    assert_eq!(
        run(&mut p, &record(&envelope(1, &[0xff])), vec![]),
        Ok(vec![])
    );
    assert_eq!(
        run(&mut p, &record(&envelope(1, &[])), vec![]),
        Ok(vec!["{\"a\":\"\"}".to_string(), "{\"a\":0}".to_string()])
    );
}

#[test]
fn json_names_enums_and_defaults_follow_the_schema() {
    let mut color = EnumDescriptorProto::new();
    color.set_name("Color".to_string());
    for (name, number) in [("RED", 0), ("DARK_GREEN", 1)] {
        let mut v = EnumValueDescriptorProto::new();
        v.set_name(name.to_string());
        v.set_number(number);
        color.value.push(v);
    }
    let mut f = file(
        "s.proto",
        vec![message(
            "Shirt",
            vec![
                field("owner_name", 1, Label::LABEL_OPTIONAL, Type::TYPE_STRING),
                typed_field("main_color", 2, Type::TYPE_ENUM, ".Color"),
                field("size_cm", 3, Label::LABEL_OPTIONAL, Type::TYPE_INT32),
                field("tags", 4, Label::LABEL_REPEATED, Type::TYPE_STRING),
            ],
        )],
    );
    f.enum_type.push(color);
    let cache = cached(vec![f], "s.proto");

    assert_eq!(
        decode(&cache, 1, &[0x10, 0x01]),
        Ok(vec![
            "{\"owner_name\":\"\",\"main_color\":\"DARK_GREEN\",\"size_cm\":0,\"tags\":[]}"
                .to_string()
        ])
    );
    assert_eq!(
        decode(
            &cache,
            1,
            &[0x0a, 0x03, 0x61, 0x20, 0x62, 0x18, 0x07, 0x22, 0x01, 0x74]
        ),
        Ok(vec![
            "{\"owner_name\":\"a b\",\"main_color\":\"RED\",\"size_cm\":7,\"tags\":[\"t\"]}"
                .to_string()
        ])
    );
}

#[test]
fn payload_without_the_envelope_is_rejected() {
    let p = Proto2Json::load(None, None, Some(vec![schema(7, "text")]), None).unwrap();
    assert!(matches!(
        p.proto2json(&record(b"[1]")),
        Err(Error::InvalidEnvelope)
    ));
    assert!(matches!(
        p.proto2json(&record(b"{\"k\": 1}")),
        Err(Error::InvalidEnvelope)
    ));
    assert!(matches!(
        p.proto2json(&record(&[0x01, 0x00, 0x00, 0x00, 0x07, 0x00])),
        Err(Error::InvalidEnvelope)
    ));
    assert!(matches!(
        p.proto2json(&record(&[])),
        Err(Error::UnexpectedEof)
    ));
    assert!(matches!(
        p.proto2json(&record(&[0x00, 0x00, 0x00])),
        Err(Error::UnexpectedEof)
    ));
    let p = Proto2Json::load(None, None, None, None).unwrap();
    assert!(matches!(
        p.proto2json(&record(b"[1]")),
        Err(Error::InvalidEnvelope)
    ));
}

#[test]
fn lines_are_the_renderings_without_white_space_between_tokens() {
    let cache = cached(
        vec![file(
            "s.proto",
            vec![
                message("A", vec![]),
                message("B", vec![]),
                message("C", vec![]),
            ],
        )],
        "s.proto",
    );
    let out = cache
        .parse(1, attempt(cache.candidates(1).unwrap(), &[]))
        .unwrap();
    assert_eq!(out.messages.len(), 3);
    let rendered = vec![
        Ok("{\"a\": 1}".to_string()),
        Ok(" {\"b\": [1, 2]}\n".to_string()),
        Ok("{\"k\": \"h\u{e9} \u{4e16}\"}".to_string()),
    ];
    assert_eq!(
        to_json_strings(&out.messages, &rendered),
        Ok(vec![
            "{\"a\":1}".to_string(),
            "{\"b\":[1,2]}".to_string(),
            "{\"k\":\"h\u{e9} \u{4e16}\"}".to_string()
        ])
    );
    let rendered = vec![
        Ok("{\"a\": 1}".to_string()),
        Err(PrintError::from(std::fmt::Error)),
        Ok("{\"b\": 2}".to_string()),
    ];
    assert_eq!(
        to_json_strings(&out.messages, &rendered),
        Err(Error::JsonPrint)
    );
}

#[test]
fn setup_takes_the_catalog_the_includes_and_the_staging_dir() {
    let p = Proto2Json::load(None, None, None, None).unwrap();
    assert_eq!(p.staging_dir(), ".");
    assert_eq!(p.includes(), &vec![".".to_string()]);
    assert!(p.schemas().is_empty());

    let p = Proto2Json::load(
        Some("/var/schemas".to_string()),
        Some(vec!["inc/a".to_string(), "inc/b".to_string()]),
        Some(vec![schema(1, "one")]),
        Some(vec![schema(2, "two")]),
    )
    .unwrap();
    assert_eq!(p.staging_dir(), "/var/schemas");
    assert_eq!(
        p.includes(),
        &vec!["inc/a".to_string(), "inc/b".to_string(), ".".to_string()]
    );
    let ids: Vec<i32> = p.schemas().iter().map(|s| s.id).collect();
    assert_eq!(ids, vec![1, 2]);
}

#[test]
fn entry_from_the_url_comes_before_one_from_the_file() {
    let from_url = vec![schema(1, "one from url"), schema(3, "three from url")];
    let from_file = vec![
        schema(1, "one from file"),
        schema(2, "two from file"),
        schema(3, "three from file"),
    ];
    let p = Proto2Json::load(None, None, Some(from_url), Some(from_file)).unwrap();
    let text_of = |id: i32| -> Option<String> {
        find_schema(p.schemas(), id).map(|i| p.schemas()[i].schema.clone())
    };
    assert_eq!(text_of(1), Some("one from url".to_string()));
    assert_eq!(text_of(2), Some("two from file".to_string()));
    assert_eq!(text_of(3), Some("three from url".to_string()));
    assert_eq!(text_of(4), None);

    match p.proto2json(&record(&envelope(1, &[]))).unwrap() {
        Progress::Compile { schema, .. } => assert_eq!(schema, "one from url"),
        Progress::Decode { .. } => panic!("nothing is compiled yet"),
    }
    match p.proto2json(&record(&envelope(2, &[]))).unwrap() {
        Progress::Compile { schema, .. } => assert_eq!(schema, "two from file"),
        Progress::Decode { .. } => panic!("nothing is compiled yet"),
    }
}
