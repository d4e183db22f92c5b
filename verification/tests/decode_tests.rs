use model_discovery::decode::decode_record;
use model_discovery::entry::ModelKind;

#[test]
fn well_formed_payload_decodes() {
    let key = b"prefix/backend-0".to_vec();
    let value = b"model_id=llama-3-70b-chat\nendpoint=host-a:8000".to_vec();
    let e = decode_record(ModelKind::Chat, &key, &value, 7).expect("payload should decode");
    assert_eq!(e.model_id, b"llama-3-70b-chat".to_vec());
    assert_eq!(e.endpoint, b"host-a:8000".to_vec());
    assert_eq!(e.source_key, b"prefix/backend-0".to_vec());
    assert_eq!(e.model_kind, ModelKind::Chat);
    assert_eq!(e.revision, 7);
}

#[test]
fn missing_endpoint_fails_to_decode() {
    let key = b"k1".to_vec();
    let value = b"model_id=m1".to_vec();
    assert!(decode_record(ModelKind::Chat, &key, &value, 1).is_none());
}

#[test]
fn missing_model_id_fails_to_decode() {
    let key = b"k1".to_vec();
    let value = b"endpoint=host-a".to_vec();
    assert!(decode_record(ModelKind::Chat, &key, &value, 1).is_none());
}

#[test]
fn empty_payload_fails_to_decode() {
    let key = b"k1".to_vec();
    let value = Vec::new();
    assert!(decode_record(ModelKind::Chat, &key, &value, 1).is_none());
}

#[test]
fn unknown_fields_are_ignored() {
    let key = b"k1".to_vec();
    let value = b"capacity=8\nmodel_id=m1\nzone=west\nendpoint=host-a\ncomment=spare".to_vec();
    let e = decode_record(ModelKind::Completion, &key, &value, 3).expect("payload should decode");
    assert_eq!(e.model_id, b"m1".to_vec());
    assert_eq!(e.endpoint, b"host-a".to_vec());
}

#[test]
fn first_occurrence_of_a_field_wins() {
    let key = b"k1".to_vec();
    let value = b"model_id=first\nmodel_id=second\nendpoint=host-a".to_vec();
    let e = decode_record(ModelKind::Chat, &key, &value, 1).expect("payload should decode");
    assert_eq!(e.model_id, b"first".to_vec());
}

#[test]
fn empty_field_value_is_a_value() {
    let key = b"k1".to_vec();
    let value = b"model_id=\nendpoint=host-a".to_vec();
    let e = decode_record(ModelKind::Chat, &key, &value, 1).expect("payload should decode");
    assert_eq!(e.model_id, Vec::<u8>::new());
    assert_eq!(e.endpoint, b"host-a".to_vec());
}

#[test]
fn field_name_needs_its_separator() {
    let key = b"k1".to_vec();
    // `model_id` without `=` is not the field, and `model_idx=` is
    // another name
    let value = b"model_id\nmodel_idx=m1\nendpoint=host-a".to_vec();
    assert!(decode_record(ModelKind::Chat, &key, &value, 1).is_none());
}
