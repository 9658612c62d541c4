use zokrates_core::types::{
    check_type, ConcreteArrayType, ConcreteSignature, ConcreteStructMember, ConcreteStructType,
    ConcreteType, Constant, DeclarationSignature, DeclarationType, GFunctionKey, UBitwidth,
};

#[test]
fn signature() {
    let s = ConcreteSignature::new()
        .inputs(vec![ConcreteType::FieldElement, ConcreteType::Boolean])
        .outputs(vec![ConcreteType::Boolean]);

    assert_eq!(s.to_string(), String::from("(field, bool) -> bool"));
}

#[test]
fn slug_0() {
    let s = ConcreteSignature::new().inputs(vec![]).outputs(vec![]);

    assert_eq!(s.to_slug(), String::from("io"));
}

#[test]
fn slug_1() {
    let s = ConcreteSignature::new()
        .inputs(vec![ConcreteType::FieldElement, ConcreteType::Boolean])
        .outputs(vec![
            ConcreteType::FieldElement,
            ConcreteType::FieldElement,
            ConcreteType::Boolean,
            ConcreteType::FieldElement,
        ]);

    assert_eq!(s.to_slug(), String::from("ifbo2fbf"));
}

#[test]
fn slug_2() {
    let s = ConcreteSignature::new()
        .inputs(vec![
            ConcreteType::FieldElement,
            ConcreteType::FieldElement,
            ConcreteType::FieldElement,
        ])
        .outputs(vec![
            ConcreteType::FieldElement,
            ConcreteType::Boolean,
            ConcreteType::FieldElement,
        ]);

    assert_eq!(s.to_slug(), String::from("i3fofbf"));
}

#[test]
fn array_slug() {
    let s = ConcreteSignature::new()
        .inputs(vec![
            ConcreteType::array(ConcreteType::FieldElement, 42usize),
            ConcreteType::array(ConcreteType::FieldElement, 21usize),
        ])
        .outputs(vec![]);

    assert_eq!(s.to_slug(), String::from("if[42]f[21]o"));
}

#[test]
fn array() {
    let t = ConcreteType::Array(ConcreteArrayType::new(ConcreteType::FieldElement, 42usize));
    assert_eq!(t.get_primitive_count(), 42);
}

fn point() -> ConcreteStructType {
    ConcreteStructType::new(
        String::from("main"),
        String::from("Point"),
        vec![
            ConcreteStructMember::new(String::from("x"), ConcreteType::FieldElement),
            ConcreteStructMember::new(
                String::from("y"),
                ConcreteType::array(ConcreteType::Boolean, 3usize),
            ),
        ],
    )
}

#[test]
fn struct_slug_and_count() {
    let t = ConcreteType::struc(point());
    assert_eq!(t.to_slug(), String::from("{x:field,y:bool[3]}"));
    assert_eq!(t.get_primitive_count(), 4);
    assert_eq!(t.to_string(), String::from("Point"));
    assert_eq!(point().len(), 2);
    assert_eq!(point().iter()[0].id, String::from("x"));
}

#[test]
fn uint_and_nested_array() {
    let t = ConcreteType::array(ConcreteType::array(ConcreteType::uint(UBitwidth::B16), 2usize), 5usize);
    assert_eq!(t.to_slug(), String::from("u16[2][5]"));
    assert_eq!(t.to_string(), String::from("u16[2][5]"));
    assert_eq!(t.get_primitive_count(), 10);
    assert_eq!(UBitwidth::B32.to_usize(), 32);
}

#[test]
fn struct_runs_compare_members() {
    let s = ConcreteSignature::new()
        .inputs(vec![ConcreteType::struc(point()), ConcreteType::struc(point())])
        .outputs(vec![ConcreteType::Boolean]);
    assert_eq!(s.to_slug(), String::from("i2{x:field,y:bool[3]}ob"));
}

#[test]
fn signature_with_several_outputs() {
    let s = ConcreteSignature::new()
        .inputs(vec![])
        .outputs(vec![ConcreteType::FieldElement, ConcreteType::uint(UBitwidth::B8)]);
    assert_eq!(s.to_string(), String::from("() -> (field, u8)"));
}

#[test]
fn function_key_slug() {
    let k = GFunctionKey::with_id(String::from("main")).signature(
        ConcreteSignature::new()
            .inputs(vec![ConcreteType::FieldElement])
            .outputs(vec![ConcreteType::Boolean]),
    );
    assert_eq!(k.to_slug(), String::from("main_ifob"));
    let k = k.id(String::from("other"));
    assert_eq!(k.to_slug(), String::from("other_ifob"));
}

#[test]
fn generic_sizes_specialize() {
    let n = Constant::from_identifier(String::from("N"));
    let decl = DeclarationSignature::new()
        .inputs(vec![
            DeclarationType::array(DeclarationType::FieldElement, n.clone()),
            DeclarationType::array(DeclarationType::Boolean, n.clone()),
        ])
        .outputs(vec![DeclarationType::array(DeclarationType::FieldElement, Constant::from_u32(2))]);
    let good = ConcreteSignature::new()
        .inputs(vec![
            ConcreteType::array(ConcreteType::FieldElement, 3usize),
            ConcreteType::array(ConcreteType::Boolean, 3usize),
        ])
        .outputs(vec![ConcreteType::array(ConcreteType::FieldElement, 2usize)]);
    assert!(good.matches_declaration(&decl));
    assert_eq!(decl.specialize(&good), vec![(String::from("N"), 3u32)]);

    let bad = ConcreteSignature::new()
        .inputs(vec![
            ConcreteType::array(ConcreteType::FieldElement, 3usize),
            ConcreteType::array(ConcreteType::Boolean, 4usize),
        ])
        .outputs(vec![ConcreteType::array(ConcreteType::FieldElement, 2usize)]);
    assert!(!bad.matches_declaration(&decl));
}

#[test]
fn check_type_kinds() {
    let mut constants: Vec<(String, u32)> = vec![];
    assert!(check_type(&DeclarationType::FieldElement, &ConcreteType::FieldElement, &mut constants));
    assert!(!check_type(&DeclarationType::FieldElement, &ConcreteType::Boolean, &mut constants));
    assert!(check_type(
        &DeclarationType::uint(UBitwidth::B8),
        &ConcreteType::uint(UBitwidth::B8),
        &mut constants
    ));
    assert!(!check_type(
        &DeclarationType::uint(UBitwidth::B8),
        &ConcreteType::uint(UBitwidth::B16),
        &mut constants
    ));
    assert!(constants.is_empty());
}

#[test]
fn constants_compare_equal() {
    assert_eq!(Constant::from_u32(1), Constant::from_identifier(String::from("N")));
}

#[test]
fn constant_text_and_value() {
    assert_eq!(Constant::from_u32(7).to_string(), String::from("7"));
    assert_eq!(Constant::from_identifier(String::from("K")).to_string(), String::from("K"));
    assert_eq!(Constant::from_u32(7).try_into(), Ok(7usize));
    assert_eq!(Constant::from_identifier(String::from("K")).try_into(), Err(()));
    assert_eq!(UBitwidth::from_usize(16), UBitwidth::B16);
}

#[test]
fn declared_and_concrete_types_convert() {
    let decl = DeclarationType::array(DeclarationType::Boolean, Constant::from_u32(4));
    let c = ConcreteType::try_from_declaration(&decl).unwrap();
    assert_eq!(c.to_string(), String::from("bool[4]"));
    let back = DeclarationType::from_concrete(&c);
    assert!(ConcreteType::try_from_declaration(&back).is_ok());
    let generic = DeclarationType::array(DeclarationType::Boolean, Constant::from_identifier(String::from("N")));
    assert!(ConcreteType::try_from_declaration(&generic).is_err());

    let s = ConcreteSignature::new()
        .inputs(vec![ConcreteType::struc(point())])
        .outputs(vec![ConcreteType::FieldElement]);
    let d = DeclarationSignature::from_concrete(&s);
    let again = ConcreteSignature::try_from_declaration(&d).unwrap();
    assert_eq!(again.to_slug(), s.to_slug());
    assert!(again.matches_declaration(&d));

    let k = GFunctionKey::with_id(String::from("f")).signature(s);
    let dk = GFunctionKey::<Constant>::from_concrete(&k);
    let ck = GFunctionKey::<usize>::try_from_declaration(&dk).unwrap();
    assert_eq!(ck.to_slug(), String::from("f_i{x:field,y:bool[3]}of"));
}

#[test]
fn declared_types_display() {
    let t = DeclarationType::array(DeclarationType::FieldElement, Constant::from_identifier(String::from("N")));
    assert_eq!(t.to_string(), String::from("field[N]"));
    let s = DeclarationSignature::new()
        .inputs(vec![t, DeclarationType::uint(UBitwidth::B32)])
        .outputs(vec![DeclarationType::array(DeclarationType::Boolean, Constant::from_u32(2))]);
    assert_eq!(s.to_string(), String::from("(field[N], u32) -> bool[2]"));
}
