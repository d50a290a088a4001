use octet_zone::handler::Error;
use octet_zone::handler::Handler;
use octet_zone::handler::MessageType;
use octet_zone::handler::OpCode;
use octet_zone::handler::TxtDef;
use octet_zone::name::DnsName;
use octet_zone::record::RData;
use octet_zone::record::Record;
use octet_zone::record::RecordType;

fn name_of(text: &str) -> DnsName {
    DnsName::new(text.split('.').map(|l| l.to_string()).collect())
}

fn sample_handler() -> Handler {
    Handler::from_options(
        name_of("octet.zone"),
        vec![vec![192, 0, 2, 1], vec![192, 0, 2, 2]],
        vec![vec![
            0x20, 0x01, 0x0d, 0xb8, 0, 0, 0, 0, 0, 0, 0, 0, 0, 0, 0, 0x01,
        ]],
        vec![TxtDef { name: name_of("_.octet.zone"), value: "hello".to_string() }],
    )
}

fn query(handler: &Handler, text: &str) -> Result<Vec<Record>, Error> {
    handler.do_handle_request(&name_of(text), OpCode::Query, MessageType::Query)
}

#[test]
fn non_query_opcode_is_rejected() {
    let handler = sample_handler();
    let r = handler.do_handle_request(
        &name_of("octet.zone"),
        OpCode::Status,
        MessageType::Query,
    );
    assert_eq!(r, Err(Error::InvalidOpCode(OpCode::Status)));
}

#[test]
fn non_query_message_type_is_rejected() {
    let handler = sample_handler();
    let r = handler.do_handle_request(
        &name_of("octet.zone"),
        OpCode::Query,
        MessageType::Response,
    );
    assert_eq!(r, Err(Error::InvalidMessageType(MessageType::Response)));
}

#[test]
fn foreign_zone_is_rejected() {
    let handler = sample_handler();
    assert_eq!(query(&handler, "example.com"), Err(Error::InvalidZone));
    assert_eq!(query(&handler, "zone"), Err(Error::InvalidZone));
    assert_eq!(query(&handler, "other.zone"), Err(Error::InvalidZone));
}

#[test]
fn apex_returns_configured_records() {
    let handler = sample_handler();
    let records = query(&handler, "octet.zone").unwrap();
    assert_eq!(records.len(), 3);
    assert_eq!(records[0].rdata, RData::A(vec![192, 0, 2, 1]));
    assert_eq!(records[1].rdata, RData::A(vec![192, 0, 2, 2]));
    assert_eq!(
        records[2].rdata,
        RData::Aaaa(vec![0x20, 0x01, 0x0d, 0xb8, 0, 0, 0, 0, 0, 0, 0, 0, 0, 0, 0, 0x01])
    );
    for record in &records {
        assert_eq!(record.name, name_of("octet.zone"));
        assert_eq!(record.ttl, 3600);
    }
}

#[test]
fn apex_query_filters_by_requested_type() {
    let handler = sample_handler();
    let answers = handler.handle_request(
        &name_of("octet.zone"),
        OpCode::Query,
        MessageType::Query,
        RecordType::A,
    );
    assert_eq!(answers.len(), 2);
    assert_eq!(answers[0].rdata, RData::A(vec![192, 0, 2, 1]));
    assert_eq!(answers[1].rdata, RData::A(vec![192, 0, 2, 2]));
}

#[test]
fn apex_includes_apex_text_records() {
    let handler = Handler::from_options(
        name_of("octet.zone"),
        vec![vec![192, 0, 2, 1]],
        vec![],
        vec![TxtDef { name: name_of("octet.zone"), value: "apex note".to_string() }],
    );
    let records = query(&handler, "octet.zone").unwrap();
    assert_eq!(records.len(), 2);
    assert_eq!(records[0].rdata, RData::A(vec![192, 0, 2, 1]));
    assert_eq!(records[1].rdata, RData::Txt("apex note".to_string()));
}

#[test]
fn registered_name_overrides_decoding() {
    // `_.octet.zone` would decode fine (to all zeroes), but the static
    // table takes precedence.
    let handler = sample_handler();
    let records = query(&handler, "_.octet.zone").unwrap();
    assert_eq!(records.len(), 1);
    assert_eq!(records[0].name, name_of("_.octet.zone"));
    assert_eq!(records[0].ttl, 3600);
    assert_eq!(records[0].rdata, RData::Txt("hello".to_string()));
}

#[test]
fn registered_names_group_their_records() {
    let handler = Handler::from_options(
        name_of("octet.zone"),
        vec![],
        vec![],
        vec![
            TxtDef { name: name_of("a.octet.zone"), value: "one".to_string() },
            TxtDef { name: name_of("b.octet.zone"), value: "two".to_string() },
            TxtDef { name: name_of("a.octet.zone"), value: "three".to_string() },
        ],
    );
    let records = query(&handler, "a.octet.zone").unwrap();
    assert_eq!(records.len(), 2);
    assert_eq!(records[0].rdata, RData::Txt("one".to_string()));
    assert_eq!(records[1].rdata, RData::Txt("three".to_string()));
    let records = query(&handler, "b.octet.zone").unwrap();
    assert_eq!(records.len(), 1);
    assert_eq!(records[0].rdata, RData::Txt("two".to_string()));
}

#[test]
fn embedded_address_decodes_to_one_aaaa_record() {
    let handler = sample_handler();
    let records = query(&handler, "map.0.0.0.1.octet.zone").unwrap();
    assert_eq!(records.len(), 1);
    assert_eq!(records[0].name, name_of("map.0.0.0.1.octet.zone"));
    assert_eq!(records[0].ttl, 3600);
    assert_eq!(
        records[0].rdata,
        RData::Aaaa(vec![0, 0, 0, 0, 0, 0, 0, 0, 0, 0, 0xff, 0xff, 0, 0, 0, 1])
    );
}

#[test]
fn undecodable_name_propagates_invalid_address() {
    let handler = sample_handler();
    assert_eq!(query(&handler, "foo.octet.zone"), Err(Error::InvalidAddress));
    assert_eq!(query(&handler, "1.2.octet.zone"), Err(Error::InvalidAddress));
}

#[test]
fn invalid_address_diagnostic_for_text_queries() {
    let handler = sample_handler();
    let answers = handler.handle_request(
        &name_of("foo.octet.zone"),
        OpCode::Query,
        MessageType::Query,
        RecordType::Txt,
    );
    assert_eq!(answers.len(), 1);
    assert_eq!(answers[0].name, name_of("foo.octet.zone"));
    assert_eq!(answers[0].ttl, 60);
    assert_eq!(answers[0].rdata, RData::Txt("Invalid address".to_string()));
}

#[test]
fn not_enough_octets_diagnostic_for_text_queries() {
    // With a numeric apex even the apex suffix labels are octet tokens,
    // so a short address fails for want of octets rather than validity.
    let handler = Handler::from_options(name_of("1.2"), vec![], vec![], vec![]);
    assert_eq!(query(&handler, "3.4.1.2"), Err(Error::NotEnoughOctets));
    let answers = handler.handle_request(
        &name_of("3.4.1.2"),
        OpCode::Query,
        MessageType::Query,
        RecordType::Txt,
    );
    assert_eq!(answers.len(), 1);
    assert_eq!(answers[0].ttl, 60);
    assert_eq!(answers[0].rdata, RData::Txt("Not enough octets".to_string()));
}

#[test]
fn protocol_rejections_synthesize_no_records() {
    // Bad opcode, bad message type, or an out-of-zone name: the engine
    // owns those failures, so the assembled answer is empty even for a
    // text query.
    let handler = sample_handler();
    let answers = handler.handle_request(
        &name_of("example.com"),
        OpCode::Query,
        MessageType::Query,
        RecordType::Txt,
    );
    assert_eq!(answers.len(), 0);
    let answers = handler.handle_request(
        &name_of("octet.zone"),
        OpCode::Status,
        MessageType::Query,
        RecordType::Txt,
    );
    assert_eq!(answers.len(), 0);
    let answers = handler.handle_request(
        &name_of("octet.zone"),
        OpCode::Query,
        MessageType::Response,
        RecordType::Txt,
    );
    assert_eq!(answers.len(), 0);
}

#[test]
fn decode_failure_is_hidden_from_address_queries() {
    let handler = sample_handler();
    let answers = handler.handle_request(
        &name_of("foo.octet.zone"),
        OpCode::Query,
        MessageType::Query,
        RecordType::Aaaa,
    );
    assert_eq!(answers.len(), 0);
    let answers = handler.handle_request(
        &name_of("foo.octet.zone"),
        OpCode::Query,
        MessageType::Query,
        RecordType::A,
    );
    assert_eq!(answers.len(), 0);
}

#[test]
fn successful_decode_answers_only_matching_type() {
    let handler = sample_handler();
    let answers = handler.handle_request(
        &name_of("map.0.0.0.1.octet.zone"),
        OpCode::Query,
        MessageType::Query,
        RecordType::A,
    );
    assert_eq!(answers.len(), 0);
    let answers = handler.handle_request(
        &name_of("map.0.0.0.1.octet.zone"),
        OpCode::Query,
        MessageType::Query,
        RecordType::Aaaa,
    );
    assert_eq!(answers.len(), 1);
}

#[test]
fn queries_for_unserved_types_get_empty_answers() {
    let handler = sample_handler();
    let answers = handler.handle_request(
        &name_of("octet.zone"),
        OpCode::Query,
        MessageType::Query,
        RecordType::Other,
    );
    assert_eq!(answers.len(), 0);
}
