//! Builder and encoder tests: assembling `Data` trees by hand and
//! through the emission protocol.

use mustache::data::{data_eq, Data};
use mustache::builder::{MapBuilder, VecBuilder};
use mustache::encoder::{Encoder, Error};

#[test]
fn test_empty_builders() {
    assert_eq!(data_eq(&MapBuilder::new().build(), &Data::MapVal(vec![])), Some(true));

    assert_eq!(data_eq(&VecBuilder::new().build(), &Data::VecVal(Vec::new())), Some(true));
}

#[test]
fn test_builders() {
    let pride_and_prejudice = vec![
        ("title".to_string(), Data::StrVal("Pride and Prejudice".to_string())),
        ("publish_date".to_string(), Data::StrVal("1813".to_string())),
    ];

    let m = vec![
        ("first_name".to_string(), Data::StrVal("Jane".to_string())),
        ("last_name".to_string(), Data::StrVal("Austen".to_string())),
        ("age".to_string(), Data::StrVal("41".to_string())),
        ("died".to_string(), Data::Bool(true)),
        (
            "works".to_string(),
            Data::VecVal(vec![
                Data::StrVal("Sense and Sensibility".to_string()),
                Data::MapVal(pride_and_prejudice),
            ]),
        ),
    ];

    let built = MapBuilder::new()
        .insert_str("first_name", "Jane")
        .insert_str("last_name", "Austen")
        .insert_value("age", Data::StrVal("41".to_string()))
        .insert_bool("died", true)
        .insert_vec("works", |builder| {
            builder.push_str("Sense and Sensibility").push_map(|builder| {
                builder
                    .insert_str("title", "Pride and Prejudice")
                    .insert_value("publish_date", Data::StrVal("1813".to_string()))
            })
        })
        .build();

    assert_eq!(data_eq(&built, &Data::MapVal(m)), Some(true));
}

#[test]
fn test_map_fn_builder() {
    // We cannot compare closures directly, so just make sure the
    // lambda threads through the builder with its state intact.
    let mut count = 0usize;
    let data = MapBuilder::new()
        .insert_fn("count", move |s| {
            count += 1usize;
            s.clone() + &count.to_string()
        })
        .build();

    match data {
        Data::MapVal(m) => {
            assert_eq!(m.len(), 1);
            assert_eq!(m[0].0, "count");
            match &m[0].1 {
                Data::Fun(f) => {
                    assert_eq!(f.invoke("count: ".to_string()), "count: 1".to_string());
                    assert_eq!(f.invoke("count: ".to_string()), "count: 2".to_string());
                    assert_eq!(f.invoke("count: ".to_string()), "count: 3".to_string());
                }
                _ => panic!(),
            }
        }
        _ => panic!(),
    }
}

#[test]
fn test_vec_fn_builder() {
    // We cannot compare closures directly, so just make sure the
    // lambda threads through the builder with its state intact.
    let mut count = 0usize;
    let data = VecBuilder::new()
        .push_fn(move |s| {
            count += 1usize;
            s + &count.to_string()
        })
        .build();

    match data {
        Data::VecVal(vs) => {
            assert_eq!(vs.len(), 1);
            match &vs[0] {
                Data::Fun(f) => {
                    assert_eq!(f.invoke("count: ".to_string()), "count: 1".to_string());
                    assert_eq!(f.invoke("count: ".to_string()), "count: 2".to_string());
                    assert_eq!(f.invoke("count: ".to_string()), "count: 3".to_string());
                }
                _ => panic!(),
            }
        }
        _ => panic!(),
    }
}

#[test]
fn test_data_eq_lambdas_do_not_compare() {
    let a = MapBuilder::new().insert_fn("f", |s| s).build();
    let b = MapBuilder::new().insert_fn("f", |s| s).build();
    assert_eq!(data_eq(&a, &b), None);
    let c = MapBuilder::new().insert_str("f", "x").build();
    assert_eq!(data_eq(&a, &c), Some(false));
}

#[test]
fn test_encoder_struct_protocol() {
    // A record { name: "world", n: 1813 } emitted bottom-up.
    let mut enc = Encoder::new();
    enc.emit_struct().unwrap();
    enc.emit_struct_field_begin().unwrap();
    enc.emit_str("world").unwrap();
    enc.emit_struct_field_end("name").unwrap();
    enc.emit_struct_field_begin().unwrap();
    enc.emit_usize(1813).unwrap();
    enc.emit_struct_field_end("n").unwrap();
    let data = enc.finish().unwrap();

    let expected = Data::MapVal(vec![
        ("name".to_string(), Data::StrVal("world".to_string())),
        ("n".to_string(), Data::StrVal("1813".to_string())),
    ]);
    assert_eq!(data_eq(&data, &expected), Some(true));
}

#[test]
fn test_encoder_seq_protocol() {
    let mut enc = Encoder::new();
    enc.emit_seq().unwrap();
    enc.emit_seq_elt_begin().unwrap();
    enc.emit_i64(-42).unwrap();
    enc.emit_seq_elt_end().unwrap();
    enc.emit_seq_elt_begin().unwrap();
    enc.emit_bool(false).unwrap();
    enc.emit_seq_elt_end().unwrap();
    let data = enc.finish().unwrap();

    let expected =
        Data::VecVal(vec![Data::StrVal("-42".to_string()), Data::Bool(false)]);
    assert_eq!(data_eq(&data, &expected), Some(true));
}

#[test]
fn test_encoder_map_key_protocol() {
    let mut enc = Encoder::new();
    enc.emit_map().unwrap();
    enc.emit_str("k").unwrap();
    enc.emit_map_elt_key_end().unwrap();
    let key = enc.emit_map_elt_val_begin().unwrap();
    enc.emit_char('x').unwrap();
    enc.emit_map_elt_val_end(key).unwrap();
    let data = enc.finish().unwrap();

    let expected = Data::MapVal(vec![("k".to_string(), Data::StrVal("x".to_string()))]);
    assert_eq!(data_eq(&data, &expected), Some(true));
}

#[test]
fn test_encoder_unsupported_shapes() {
    let mut enc = Encoder::new();
    assert_eq!(enc.emit_nil(), Err(Error::UnsupportedType));
    assert_eq!(enc.emit_enum(), Err(Error::UnsupportedType));
    assert_eq!(enc.emit_option(), Err(Error::UnsupportedType));
    // A non-string key is rejected.
    enc.emit_map().unwrap();
    enc.emit_bool(true).unwrap();
    assert_eq!(enc.emit_map_elt_key_end(), Err(Error::KeyIsNotString));
    // Merging with no open record is rejected.
    let mut enc2 = Encoder::new();
    enc2.emit_str("v").unwrap();
    assert_eq!(enc2.emit_struct_field_end("f"), Err(Error::UnsupportedType));
    // Two values left on the stack cannot finish.
    let mut enc3 = Encoder::new();
    enc3.emit_str("a").unwrap();
    enc3.emit_str("b").unwrap();
    match enc3.finish() {
        Err(e) => assert_eq!(e, Error::MissingElements),
        Ok(_) => panic!("finish accepted a two-value stack"),
    }
}
