use cstree::derive::{
    derive_syntax_table, AttrDesc, AttrForm, EnumDesc, ErrorSite, StaticValue, VariantDesc,
};

fn unit(name: &str, attrs: Vec<AttrDesc>) -> VariantDesc {
    VariantDesc { name: name.to_string(), has_fields: false, has_discriminant: false, attrs }
}

fn attr(name: &str, form: AttrForm) -> AttrDesc {
    AttrDesc { name: name.to_string(), form }
}

fn kinds(variants: Vec<VariantDesc>) -> EnumDesc {
    EnumDesc {
        name: "SyntaxKind".to_string(),
        is_enum: true,
        reprs: vec!["u32".to_string()],
        syntax_attrs: Vec::new(),
        variants,
    }
}

fn messages(e: &EnumDesc) -> Vec<(ErrorSite, String)> {
    match derive_syntax_table(e) {
        Ok(_) => Vec::new(),
        Err(errors) => errors.into_iter().map(|e| (e.site, e.message)).collect(),
    }
}

#[test]
fn derive_builds_the_kind_table() {
    let e = kinds(vec![
        unit("Root", Vec::new()),
        unit("Plus", vec![attr("static_text", AttrForm::List(Ok("+".to_string())))]),
        unit(
            "Nul",
            vec![
                attr("static_text", AttrForm::List(Ok("x".to_string()))),
                attr("static_data", AttrForm::List(Ok("b\"\\0\"".to_string()))),
            ],
        ),
        unit("Doc", vec![attr("doc", AttrForm::NameValue)]),
    ]);
    let table = derive_syntax_table(&e).ok().unwrap();
    assert_eq!(table.len(), 4);
    assert_eq!(table[0].raw, 0);
    assert_eq!(table[0].name, "Root");
    assert!(matches!(table[0].static_value, StaticValue::NoStatic));
    assert_eq!(table[1].raw, 1);
    assert!(matches!(&table[1].static_value, StaticValue::Text(t) if t == "+"));
    assert!(matches!(&table[2].static_value, StaticValue::Data(d) if d == "b\"\\0\""));
    assert!(matches!(table[3].static_value, StaticValue::NoStatic));
}

#[test]
fn derive_refuses_items_that_are_not_enums() {
    let mut e = kinds(Vec::new());
    e.is_enum = false;
    assert_eq!(messages(&e), vec![(ErrorSite::Item, "`Syntax` can only be derived on enums".to_string())]);
}

#[test]
fn derive_requires_repr_u32() {
    let mut e = kinds(vec![unit("Root", Vec::new())]);
    e.reprs = vec!["u8".to_string()];
    assert_eq!(
        messages(&e),
        vec![(ErrorSite::Item, "syntax kind definitions must be `#[repr(u32)]` to derive `Syntax`".to_string())]
    );
    e.reprs = Vec::new();
    assert_eq!(messages(&e).len(), 1);
    e.reprs = vec!["u32".to_string(), "C".to_string()];
    assert_eq!(messages(&e), vec![(ErrorSite::Repr(1), "duplicate repr attribute".to_string())]);
}

#[test]
fn derive_reports_bad_variants_and_attributes_in_order() {
    let mut fields = unit("Pair", Vec::new());
    fields.has_fields = true;
    fields.has_discriminant = true;
    let e = EnumDesc {
        syntax_attrs: vec![Err("unexpected end of input".to_string()), Ok(()), Ok(())],
        ..kinds(vec![
            fields,
            unit(
                "Text",
                vec![
                    attr("static_text", AttrForm::Path),
                    attr("static_text", AttrForm::NameValue),
                    attr("static_text", AttrForm::List(Err("expected string literal".to_string()))),
                    attr("static_text", AttrForm::List(Ok("a".to_string()))),
                    attr("static_text", AttrForm::List(Ok("b".to_string()))),
                    attr("static_data", AttrForm::Path),
                ],
            ),
        ])
    };
    assert_eq!(
        messages(&e),
        vec![
            (ErrorSite::SyntaxAttr(0), "expected `#[syntax(data = Type)]`".to_string()),
            (ErrorSite::SyntaxAttr(0), "unexpected end of input".to_string()),
            (ErrorSite::SyntaxAttr(2), "duplicate data attribute".to_string()),
            (ErrorSite::Variant(0), "syntax kinds with fields are not supported".to_string()),
            (ErrorSite::Variant(0), "syntax kinds are not allowed to have custom discriminant values".to_string()),
            (ErrorSite::VariantAttr(1, 0), "missing text for `static_text`: try `#[static_text(\"...\")]`".to_string()),
            (
                ErrorSite::VariantAttr(1, 1),
                "`static_text` takes the text as a function argument: `#[static_text(\"...\")]`".to_string()
            ),
            (
                ErrorSite::VariantAttr(1, 2),
                "argument to `static_text` must be a string literal: `#[static_text(\"...\")]`".to_string()
            ),
            (ErrorSite::VariantAttr(1, 2), "expected string literal".to_string()),
            (ErrorSite::VariantAttr(1, 4), "duplicate static_text attribute".to_string()),
            (ErrorSite::VariantAttr(1, 5), "missing data for `static_data`: try `#[static_data(EXPR)]`".to_string()),
        ]
    );
}
