use abi_schema::abi::{Abi, AbiInput, EntryFunction, EntryParameter};
use abi_schema::types::{
    ConcreteArrayType, ConcreteStructMember, ConcreteStructType, ConcreteType,
};

#[test]
fn generate_abi_from_typed_ast() {
    let entry = EntryFunction {
        parameters: vec![
            EntryParameter {
                name: String::from("a"),
                private: true,
                ty: ConcreteType::FieldElement,
            },
            EntryParameter {
                name: String::from("b"),
                private: false,
                ty: ConcreteType::Boolean,
            },
        ],
        outputs: vec![ConcreteType::FieldElement],
    };

    let abi: Abi = Abi::from_entry(&entry);
    let expected_abi = Abi {
        inputs: vec![
            AbiInput {
                name: String::from("a"),
                public: false,
                ty: ConcreteType::FieldElement,
            },
            AbiInput {
                name: String::from("b"),
                public: true,
                ty: ConcreteType::Boolean,
            },
        ],
        outputs: vec![ConcreteType::FieldElement],
    };

    assert_eq!(expected_abi, abi);
}

#[test]
fn serialize_empty() {
    let abi: Abi = Abi {
        inputs: vec![],
        outputs: vec![],
    };

    let json = abi.encode();
    assert_eq!(&json, r#"{"inputs":[],"outputs":[]}"#)
}

#[test]
fn serialize_field() {
    let abi: Abi = Abi {
        inputs: vec![
            AbiInput {
                name: String::from("a"),
                public: true,
                ty: ConcreteType::FieldElement,
            },
            AbiInput {
                name: String::from("b"),
                public: true,
                ty: ConcreteType::FieldElement,
            },
        ],
        outputs: vec![ConcreteType::FieldElement],
    };

    let json = abi.encode_pretty();
    assert_eq!(
        &json,
        r#"{
  "inputs": [
    {
      "name": "a",
      "public": true,
      "type": "field"
    },
    {
      "name": "b",
      "public": true,
      "type": "field"
    }
  ],
  "outputs": [
    {
      "type": "field"
    }
  ]
}"#
    )
}

#[test]
fn serialize_struct() {
    let abi: Abi = Abi {
        inputs: vec![AbiInput {
            name: String::from("foo"),
            public: true,
            ty: ConcreteType::Struct(ConcreteStructType::new(
                "Foo".into(),
                vec![
                    ConcreteStructMember::new(String::from("a"), ConcreteType::FieldElement),
                    ConcreteStructMember::new(String::from("b"), ConcreteType::Boolean),
                ],
            )),
        }],
        outputs: vec![ConcreteType::Struct(ConcreteStructType::new(
            "Foo".into(),
            vec![
                ConcreteStructMember::new(String::from("a"), ConcreteType::FieldElement),
                ConcreteStructMember::new(String::from("b"), ConcreteType::Boolean),
            ],
        ))],
    };

    let json = abi.encode_pretty();
    assert_eq!(
        &json,
        r#"{
  "inputs": [
    {
      "name": "foo",
      "public": true,
      "type": "struct",
      "components": {
        "name": "Foo",
        "members": [
          {
            "name": "a",
            "type": "field"
          },
          {
            "name": "b",
            "type": "bool"
          }
        ]
      }
    }
  ],
  "outputs": [
    {
      "type": "struct",
      "components": {
        "name": "Foo",
        "members": [
          {
            "name": "a",
            "type": "field"
          },
          {
            "name": "b",
            "type": "bool"
          }
        ]
      }
    }
  ]
}"#
    )
}

#[test]
fn serialize_nested_struct() {
    let abi: Abi = Abi {
        inputs: vec![AbiInput {
            name: String::from("foo"),
            public: true,
            ty: ConcreteType::Struct(ConcreteStructType::new(
                "Foo".into(),
                vec![ConcreteStructMember::new(
                    String::from("bar"),
                    ConcreteType::Struct(ConcreteStructType::new(
                        "Bar".into(),
                        vec![
                            ConcreteStructMember::new(
                                String::from("a"),
                                ConcreteType::FieldElement,
                            ),
                            ConcreteStructMember::new(
                                String::from("b"),
                                ConcreteType::FieldElement,
                            ),
                        ],
                    )),
                )],
            )),
        }],
        outputs: vec![],
    };

    let json = abi.encode_pretty();
    assert_eq!(
        &json,
        r#"{
  "inputs": [
    {
      "name": "foo",
      "public": true,
      "type": "struct",
      "components": {
        "name": "Foo",
        "members": [
          {
            "name": "bar",
            "type": "struct",
            "components": {
              "name": "Bar",
              "members": [
                {
                  "name": "a",
                  "type": "field"
                },
                {
                  "name": "b",
                  "type": "field"
                }
              ]
            }
          }
        ]
      }
    }
  ],
  "outputs": []
}"#
    )
}

#[test]
fn serialize_struct_array() {
    let abi: Abi = Abi {
        inputs: vec![AbiInput {
            name: String::from("a"),
            public: false,
            ty: ConcreteType::Array(ConcreteArrayType::new(
                ConcreteType::Struct(ConcreteStructType::new(
                    "Foo".into(),
                    vec![
                        ConcreteStructMember::new(String::from("b"), ConcreteType::FieldElement),
                        ConcreteStructMember::new(String::from("c"), ConcreteType::Boolean),
                    ],
                )),
                2,
            )),
        }],
        outputs: vec![ConcreteType::Boolean],
    };

    let json = abi.encode_pretty();
    assert_eq!(
        &json,
        r#"{
  "inputs": [
    {
      "name": "a",
      "public": false,
      "type": "array",
      "components": {
        "size": 2,
        "type": "struct",
        "components": {
          "name": "Foo",
          "members": [
            {
              "name": "b",
              "type": "field"
            },
            {
              "name": "c",
              "type": "bool"
            }
          ]
        }
      }
    }
  ],
  "outputs": [
    {
      "type": "bool"
    }
  ]
}"#
    )
}

#[test]
fn serialize_multi_dimensional_array() {
    let abi: Abi = Abi {
        inputs: vec![AbiInput {
            name: String::from("a"),
            public: false,
            ty: ConcreteType::Array(ConcreteArrayType::new(
                ConcreteType::Array(ConcreteArrayType::new(ConcreteType::FieldElement, 2)),
                2,
            )),
        }],
        outputs: vec![ConcreteType::FieldElement],
    };

    let json = abi.encode_pretty();
    assert_eq!(
        &json,
        r#"{
  "inputs": [
    {
      "name": "a",
      "public": false,
      "type": "array",
      "components": {
        "size": 2,
        "type": "array",
        "components": {
          "size": 2,
          "type": "field"
        }
      }
    }
  ],
  "outputs": [
    {
      "type": "field"
    }
  ]
}"#
    )
}
