use abi_schema::abi::{Abi, AbiInput, ConcreteSignature, EntryFunction, EntryParameter};
use abi_schema::decode::DecodeError;
use abi_schema::types::{
    ConcreteArrayType, ConcreteStructMember, ConcreteStructType, ConcreteType,
};

fn struct_array_abi() -> Abi {
    Abi {
        inputs: vec![AbiInput {
            name: String::from("a"),
            public: false,
            ty: ConcreteType::Array(ConcreteArrayType::new(
                ConcreteType::Struct(ConcreteStructType::new(
                    String::from("Foo"),
                    vec![
                        ConcreteStructMember::new(String::from("b"), ConcreteType::FieldElement),
                        ConcreteStructMember::new(String::from("c"), ConcreteType::Boolean),
                    ],
                )),
                2,
            )),
        }],
        outputs: vec![ConcreteType::Boolean],
    }
}

#[test]
fn encode_empty_compact() {
    let abi = Abi {
        inputs: vec![],
        outputs: vec![],
    };
    assert_eq!(&abi.encode(), r#"{"inputs":[],"outputs":[]}"#);
    let back = Abi::decode(r#"{"inputs":[],"outputs":[]}"#).unwrap();
    assert_eq!(back, abi);
}

#[test]
fn encode_struct_array_compact() {
    let abi = struct_array_abi();
    let json = abi.encode();
    assert_eq!(
        &json,
        r#"{"inputs":[{"name":"a","public":false,"type":"array","components":{"size":2,"type":"struct","components":{"name":"Foo","members":[{"name":"b","type":"field"},{"name":"c","type":"bool"}]}}}],"outputs":[{"type":"bool"}]}"#
    );
}

#[test]
fn round_trip_struct_array() {
    let abi = struct_array_abi();
    let json = abi.encode();
    let back = Abi::decode(json.as_str()).unwrap();
    assert_eq!(back, abi);
}

#[test]
fn round_trip_nested_arrays() {
    let abi = Abi {
        inputs: vec![AbiInput {
            name: String::from("a"),
            public: false,
            ty: ConcreteType::Array(ConcreteArrayType::new(
                ConcreteType::Array(ConcreteArrayType::new(ConcreteType::FieldElement, 3)),
                12,
            )),
        }],
        outputs: vec![ConcreteType::FieldElement],
    };
    let json = abi.encode();
    assert!(json.contains(r#""size":12"#));
    assert!(json.contains(r#""size":3"#));
    let back = Abi::decode(json.as_str()).unwrap();
    assert_eq!(back, abi);
    // the nesting depth survives: the outer array still holds an inner array
    match &back.inputs[0].ty {
        ConcreteType::Array(outer) => {
            assert_eq!(outer.size, 12);
            match &*outer.ty {
                ConcreteType::Array(inner) => {
                    assert_eq!(inner.size, 3);
                    assert_eq!(*inner.ty, ConcreteType::FieldElement);
                }
                other => panic!("expected an inner array, got {:?}", other),
            }
        }
        other => panic!("expected an outer array, got {:?}", other),
    }
}

#[test]
fn round_trip_nested_struct() {
    let abi = Abi {
        inputs: vec![AbiInput {
            name: String::from("foo"),
            public: true,
            ty: ConcreteType::Struct(ConcreteStructType::new(
                String::from("Foo"),
                vec![ConcreteStructMember::new(
                    String::from("bar"),
                    ConcreteType::Struct(ConcreteStructType::new(
                        String::from("Bar"),
                        vec![ConcreteStructMember::new(
                            String::from("a"),
                            ConcreteType::FieldElement,
                        )],
                    )),
                )],
            )),
        }],
        outputs: vec![],
    };
    let json = abi.encode();
    let back = Abi::decode(json.as_str()).unwrap();
    assert_eq!(back, abi);
}

#[test]
fn round_trip_escaped_name() {
    let abi = Abi {
        inputs: vec![AbiInput {
            name: String::from("a\"b\\c"),
            public: true,
            ty: ConcreteType::Boolean,
        }],
        outputs: vec![],
    };
    let json = abi.encode();
    assert!(json.contains(r#""name":"a\"b\\c""#));
    let back = Abi::decode(json.as_str()).unwrap();
    assert_eq!(back, abi);
}

#[test]
fn round_trip_zero_sized_array_and_empty_struct() {
    let abi = Abi {
        inputs: vec![AbiInput {
            name: String::from("z"),
            public: true,
            ty: ConcreteType::Array(ConcreteArrayType::new(
                ConcreteType::Struct(ConcreteStructType::new(String::from("Empty"), vec![])),
                0,
            )),
        }],
        outputs: vec![],
    };
    let json = abi.encode();
    assert!(json.contains(r#""size":0"#));
    assert!(json.contains(r#""members":[]"#));
    let back = Abi::decode(json.as_str()).unwrap();
    assert_eq!(back, abi);
}

#[test]
fn decode_unknown_kind_is_rejected() {
    let doc = r#"{"inputs":[{"name":"a","public":true,"type":"octagon"}],"outputs":[]}"#;
    let err = Abi::decode(doc).unwrap_err();
    assert!(!err.message().is_empty());
}

#[test]
fn decode_array_without_components_is_rejected() {
    let doc = r#"{"inputs":[],"outputs":[{"type":"array"}]}"#;
    let err = Abi::decode(doc).unwrap_err();
    assert!(!err.message().is_empty());
}

#[test]
fn decode_rejects_malformed_documents() {
    assert!(Abi::decode("").is_err());
    assert!(Abi::decode("{").is_err());
    assert!(Abi::decode(r#"{"inputs":[],"outputs":[]} "#).is_err());
    assert!(Abi::decode(r#"{"inputs":[,],"outputs":[]}"#).is_err());
    assert!(Abi::decode(r#"{"inputs":[],"outputs":[{"type":"field"},]}"#).is_err());
    assert!(Abi::decode(r#"{"outputs":[],"inputs":[]}"#).is_err());
    let err = Abi::decode(r#"{"inputs":[],"outputs":[]}x"#).unwrap_err();
    assert_eq!(err, DecodeError::TrailingCharacters { at: 26 });
    assert_eq!(err.position(), 26);
}

#[test]
fn decode_rejects_bad_sizes() {
    // a non-canonical size with a leading zero
    assert!(
        Abi::decode(
            r#"{"inputs":[],"outputs":[{"type":"array","components":{"size":007,"type":"field"}}]}"#
        )
        .is_err()
    );
    // a size that is not a number at all
    assert!(
        Abi::decode(
            r#"{"inputs":[],"outputs":[{"type":"array","components":{"size":x,"type":"field"}}]}"#
        )
        .is_err()
    );
}

#[test]
fn decode_array_of_field() {
    let doc = r#"{"inputs":[],"outputs":[{"type":"array","components":{"size":47,"type":"field"}}]}"#;
    let abi = Abi::decode(doc).unwrap();
    let expected = Abi {
        inputs: vec![],
        outputs: vec![ConcreteType::Array(ConcreteArrayType::new(
            ConcreteType::FieldElement,
            47,
        ))],
    };
    assert_eq!(abi, expected);
}

#[test]
fn signature_projects_types_in_order() {
    let abi = Abi {
        inputs: vec![
            AbiInput {
                name: String::from("a"),
                public: true,
                ty: ConcreteType::FieldElement,
            },
            AbiInput {
                name: String::from("b"),
                public: false,
                ty: ConcreteType::Boolean,
            },
        ],
        outputs: vec![ConcreteType::Boolean, ConcreteType::FieldElement],
    };
    let sig = abi.signature();
    assert_eq!(sig.inputs.len(), 2);
    assert_eq!(sig.inputs[0], ConcreteType::FieldElement);
    assert_eq!(sig.inputs[1], ConcreteType::Boolean);
    assert_eq!(
        sig.outputs,
        vec![ConcreteType::Boolean, ConcreteType::FieldElement]
    );
}

#[test]
fn signature_builder_assembles_both_lists() {
    let sig = ConcreteSignature::new()
        .inputs(vec![ConcreteType::FieldElement, ConcreteType::Boolean])
        .outputs(vec![ConcreteType::FieldElement]);
    assert_eq!(
        sig.inputs,
        vec![ConcreteType::FieldElement, ConcreteType::Boolean]
    );
    assert_eq!(sig.outputs, vec![ConcreteType::FieldElement]);
}

#[test]
fn derivation_is_deterministic() {
    let entry = EntryFunction {
        parameters: vec![EntryParameter {
            name: String::from("x"),
            private: true,
            ty: ConcreteType::FieldElement,
        }],
        outputs: vec![ConcreteType::Boolean],
    };
    let a1 = Abi::from_entry(&entry);
    let a2 = Abi::from_entry(&entry);
    assert_eq!(a1, a2);
}

#[test]
fn derivation_keeps_visibility_polarity() {
    let entry = EntryFunction {
        parameters: vec![
            EntryParameter {
                name: String::from("secret"),
                private: true,
                ty: ConcreteType::FieldElement,
            },
            EntryParameter {
                name: String::from("open"),
                private: false,
                ty: ConcreteType::FieldElement,
            },
        ],
        outputs: vec![],
    };
    let abi = Abi::from_entry(&entry);
    assert!(!abi.inputs[0].public);
    assert!(abi.inputs[1].public);
}

#[test]
fn round_trip_preserves_visibility_and_names() {
    let entry = EntryFunction {
        parameters: vec![
            EntryParameter {
                name: String::from("secret"),
                private: true,
                ty: ConcreteType::FieldElement,
            },
            EntryParameter {
                name: String::from("open"),
                private: false,
                ty: ConcreteType::Boolean,
            },
        ],
        outputs: vec![ConcreteType::FieldElement],
    };
    let abi = Abi::from_entry(&entry);
    let back = Abi::decode(abi.encode().as_str()).unwrap();
    assert_eq!(back, abi);
    assert_eq!(back.inputs[0].name, "secret");
    assert!(!back.inputs[0].public);
    assert_eq!(back.inputs[1].name, "open");
    assert!(back.inputs[1].public);
}
