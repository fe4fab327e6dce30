use kaldi::model::{ModelError, Tensor};
use kaldi::parser::{
    close, integer, multispaced, name, nnet3, open, open_any, scalar, spaced, tensor, vector,
};

fn bits(xs: &[f32]) -> Vec<u32> {
    xs.iter().map(|x| x.to_bits()).collect()
}

#[test]
fn test_nnet3_1() {
    let slice = r#"<Nnet3>

input-node name=input dim=3
component-node name=fixed1 input=input component=fixed1
output-node name=output input=fixed1

<NumComponents> 1
<ComponentName> foo <FixedAffineComponent> <LinearParams> [
  1.0 2.0 3.0
  4.0 5.0 6.0 ]
<BiasParams> [ 7.0 8.0 ]
</FixedAffineComponent>
</Nnet3>"#;
    nnet3(slice.as_bytes()).unwrap();
}

#[test]
fn test_vector() {
    let slice = r#"[ 7.0 8.0 ]"#;
    assert_eq!(
        tensor(slice.as_bytes(), 0).unwrap().1,
        Tensor::Vector(bits(&[7.0f32, 8.0]))
    );
}

#[test]
fn test_matrix() {
    let slice = r#"[
            1.0 2.0 3.0
            4.0 5.0 6.0 ]"#;
    assert_eq!(
        tensor(slice.as_bytes(), 0).unwrap().1,
        Tensor::Matrix {
            rows: 2,
            cols: 3,
            data: bits(&[1.0f32, 2.0, 3.0, 4.0, 5.0, 6.0]),
        }
    );
}

#[test]
fn scalar_bare_integer_is_float() {
    assert_eq!(
        scalar(b"3", 0).unwrap().1,
        Tensor::FloatScalar(3.0f32.to_bits())
    );
    assert_eq!(
        tensor(b"3", 0).unwrap().1,
        Tensor::FloatScalar(3.0f32.to_bits())
    );
}

#[test]
fn scalar_with_point_is_float() {
    assert_eq!(
        scalar(b"3.0", 0).unwrap().1,
        Tensor::FloatScalar(3.0f32.to_bits())
    );
    assert_eq!(
        scalar(b"-4.5e2", 0).unwrap().1,
        Tensor::FloatScalar((-4.5e2f32).to_bits())
    );
}

#[test]
fn scalar_booleans() {
    assert_eq!(scalar(b"T", 0).unwrap().1, Tensor::BoolScalar(true));
    assert_eq!(scalar(b"F", 0).unwrap().1, Tensor::BoolScalar(false));
    assert_eq!(tensor(b"T", 0).unwrap().1, Tensor::BoolScalar(true));
    assert_eq!(tensor(b"F", 0).unwrap().1, Tensor::BoolScalar(false));
    assert!(scalar(b"x", 0).is_err());
}

#[test]
fn vector_vs_matrix() {
    assert_eq!(
        tensor(b"[ 7.0 8.0 ]", 0).unwrap().1,
        Tensor::Vector(bits(&[7.0f32, 8.0]))
    );
    assert_eq!(
        tensor(b"[\n 1.0 2.0 3.0\n 4.0 5.0 6.0 ]", 0).unwrap().1,
        Tensor::Matrix {
            rows: 2,
            cols: 3,
            data: bits(&[1.0f32, 2.0, 3.0, 4.0, 5.0, 6.0]),
        }
    );
    // A single-line bracketed list never parses as a matrix.
    assert!(kaldi::parser::matrix(b"[ 7.0 8.0 ]", 0).is_err());
    // A two-line bracketed list never parses as a vector.
    assert!(vector(b"[\n 1.0\n 2.0 ]", 0).is_err());
}

#[test]
fn empty_vector() {
    assert_eq!(tensor(b"[]", 0).unwrap().1, Tensor::Vector(vec![]));
    assert_eq!(tensor(b"[ ]", 0).unwrap().1, Tensor::Vector(vec![]));
}

#[test]
fn ragged_rows_reshaped_when_divisible() {
    // Rows of 2 and 4 floats: six elements over two rows are silently
    // reshaped to 2 x 3, crossing the original row boundary.
    assert_eq!(
        tensor(b"[\n 1.0 2.0\n 3.0 4.0 5.0 6.0 ]", 0).unwrap().1,
        Tensor::Matrix {
            rows: 2,
            cols: 3,
            data: bits(&[1.0f32, 2.0, 3.0, 4.0, 5.0, 6.0]),
        }
    );
}

#[test]
fn ragged_rows_rejected_when_not_divisible() {
    // Three elements over two rows divide unevenly: rejected.
    assert!(tensor(b"[\n 1.0\n 2.0 3.0 ]", 0).is_err());
}

#[test]
fn integer_grammar() {
    assert_eq!(integer(b"42", 0).unwrap(), (2, 42));
    assert_eq!(integer(b"-12]", 0).unwrap(), (3, -12));
    assert_eq!(integer(b"007", 0).unwrap(), (3, 7));
    assert_eq!(integer(b"2147483647", 0).unwrap(), (10, 2147483647));
    assert_eq!(integer(b"-2147483648", 0).unwrap(), (11, -2147483648));
    assert!(integer(b"2147483648", 0).is_err());
    assert!(integer(b"99999999999999999999", 0).is_err());
    assert!(integer(b"-", 0).is_err());
    assert!(integer(b"x", 0).is_err());
}

#[test]
fn token_primitives() {
    assert_eq!(spaced(b"  \nx", 0), 2);
    assert_eq!(multispaced(b"  \nx", 0), 3);
    assert_eq!(open(b"  <Nnet3> ", 0, b"Nnet3").unwrap(), 10);
    assert!(open(b"<Nnet4>", 0, b"Nnet3").is_err());
    assert_eq!(close(b"</Foo> x", 0, b"Foo").unwrap(), 7);
    assert!(close(b"<Foo>", 0, b"Foo").is_err());
    let (p, nm) = name(b"abc-1.x rest", 0).unwrap();
    assert_eq!((p, nm.as_slice()), (7, b"abc-1.x".as_slice()));
    assert!(name(b"1abc", 0).is_err());
    let (p, nm) = open_any(b" <Foo> ", 0).unwrap();
    assert_eq!((p, nm.as_slice()), (7, b"Foo".as_slice()));
}

#[test]
fn mismatched_close_tag() {
    let slice = "<Nnet3> x <NumComponents> 1 <ComponentName> foo <Foo></Bar> </Nnet3>";
    match nnet3(slice.as_bytes()) {
        Err(ModelError::Parse(e)) => {
            assert_eq!(e.expected, "Foo");
            assert!(e.message().contains("Foo"));
            assert!(e.message().contains("at byte"));
        }
        r => panic!("expected a parse failure, got {:?}", r),
    }
}

#[test]
fn error_message_format() {
    let e = kaldi::model::ParseError {
        pos: 53,
        expected: String::from("Foo"),
    };
    assert_eq!(e.message(), "expected Foo at byte 53");
    let e0 = kaldi::model::ParseError {
        pos: 0,
        expected: String::from("Nnet3"),
    };
    assert_eq!(e0.message(), "expected Nnet3 at byte 0");
}

#[test]
fn end_to_end_model() {
    let slice = "<Nnet3>\ninput-node name=input dim=3\n<NumComponents> 1\n<ComponentName> foo <FixedAffineComponent> <LinearParams> [\n  1.0 2.0 3.0\n  4.0 5.0 6.0 ]\n<BiasParams> [ 7.0 8.0 ]\n</FixedAffineComponent>\n</Nnet3>";
    let m = nnet3(slice.as_bytes()).unwrap();
    assert!(m.config_lines.contains("input-node name=input dim=3"));
    assert_eq!(m.components.len(), 1);
    let (name, comp) = &m.components[0];
    assert_eq!(name.as_str(), "foo");
    assert_eq!(comp.klass.as_str(), "FixedAffineComponent");
    assert_eq!(comp.attributes.len(), 2);
    assert_eq!(comp.attributes[0].0.as_str(), "LinearParams");
    assert_eq!(
        comp.attributes[0].1,
        Tensor::Matrix {
            rows: 2,
            cols: 3,
            data: bits(&[1.0f32, 2.0, 3.0, 4.0, 5.0, 6.0]),
        }
    );
    assert_eq!(comp.attributes[1].0.as_str(), "BiasParams");
    assert_eq!(comp.attributes[1].1, Tensor::Vector(bits(&[7.0f32, 8.0])));
}

#[test]
fn declared_count_exceeds_blocks() {
    let slice = "<Nnet3> cfg <NumComponents> 2 <ComponentName> foo <Bar></Bar> </Nnet3>";
    assert!(nnet3(slice.as_bytes()).is_err());
}

#[test]
fn declared_count_matches_blocks() {
    let slice = "<Nnet3> cfg <NumComponents> 2 <ComponentName> a <X></X> <ComponentName> b <Y> <P> 1.5 </Y> </Nnet3>";
    let m = nnet3(slice.as_bytes()).unwrap();
    assert_eq!(m.components.len(), 2);
    assert_eq!(m.components[0].0.as_str(), "a");
    assert_eq!(m.components[1].0.as_str(), "b");
    assert_eq!(m.components[1].1.klass.as_str(), "Y");
    assert_eq!(
        m.components[1].1.attributes[0].1,
        Tensor::FloatScalar(1.5f32.to_bits())
    );
}

#[test]
fn negative_count_rejected() {
    let slice = "<Nnet3> cfg <NumComponents> -1 </Nnet3>";
    assert!(nnet3(slice.as_bytes()).is_err());
}

#[test]
fn duplicate_component_name_last_writer_wins() {
    let slice = "<Nnet3> cfg <NumComponents> 2 <ComponentName> a <X></X> <ComponentName> a <Y></Y> </Nnet3>";
    let m = nnet3(slice.as_bytes()).unwrap();
    assert_eq!(m.components.len(), 1);
    assert_eq!(m.components[0].0.as_str(), "a");
    assert_eq!(m.components[0].1.klass.as_str(), "Y");
}

#[test]
fn duplicate_attribute_name_last_writer_wins() {
    let slice = "<Nnet3> cfg <NumComponents> 1 <ComponentName> a <X> <P> 1.0 <P> 2.0 </X> </Nnet3>";
    let m = nnet3(slice.as_bytes()).unwrap();
    let comp = &m.components[0].1;
    assert_eq!(comp.attributes.len(), 1);
    assert_eq!(comp.attributes[0].0.as_str(), "P");
    assert_eq!(comp.attributes[0].1, Tensor::FloatScalar(2.0f32.to_bits()));
}

#[test]
fn invalid_utf8_config_is_distinct_error() {
    let mut v: Vec<u8> = Vec::new();
    v.extend_from_slice(b"<Nnet3> ");
    v.push(0xFF);
    v.extend_from_slice(b" <NumComponents> 0 </Nnet3>");
    match nnet3(&v) {
        Err(ModelError::Utf8) => {}
        r => panic!("expected an encoding failure, got {:?}", r),
    }
}

#[test]
fn trailing_input_after_envelope_is_ignored() {
    let slice = "<Nnet3> cfg <NumComponents> 0 </Nnet3> trailing junk";
    assert!(nnet3(slice.as_bytes()).is_ok());
}

#[test]
fn parsing_twice_gives_equal_models() {
    let slice = "<Nnet3> cfg <NumComponents> 1 <ComponentName> a <X> <P> [ 1.0 2.0 ] </X> </Nnet3>";
    let m1 = nnet3(slice.as_bytes()).unwrap();
    let m2 = nnet3(slice.as_bytes()).unwrap();
    assert_eq!(m1, m2);
}
