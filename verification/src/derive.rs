//! Deriving `Syntax` for an enum of kinds: the checks that the enum is fit
//! for it, and the table of raw kinds and static data that the generated
//! implementation follows. The enum is described by plain values; reading it
//! from source and writing out the implementation happen outside.

use vstd::prelude::*;
use vstd::string::StringExecFns;

verus! {

/// How an attribute is written.
pub enum AttrForm {
    /// `#[name(arg)]`: the argument as read, or the parser's message where
    /// it could not be read.
    List(Result<String, String>),
    /// `#[name]`.
    Path,
    /// `#[name = value]`.
    NameValue,
}

/// An attribute of a variant.
pub struct AttrDesc {
    pub name: String,
    pub form: AttrForm,
}

/// A variant of the enum.
pub struct VariantDesc {
    pub name: String,
    pub has_fields: bool,
    pub has_discriminant: bool,
    pub attrs: Vec<AttrDesc>,
}

/// The item that `Syntax` is derived for.
pub struct EnumDesc {
    pub name: String,
    /// Whether the item is an enum.
    pub is_enum: bool,
    /// The names inside the item's `#[repr(..)]` attributes, in order.
    pub reprs: Vec<String>,
    /// Each `#[syntax(..)]` attribute: well-formed (`data = Type`), or the
    /// parser's message.
    pub syntax_attrs: Vec<Result<(), String>>,
    pub variants: Vec<VariantDesc>,
}

/// Where an error points.
#[derive(Clone, Copy, Debug, PartialEq, Eq)]
pub enum ErrorSite {
    /// The whole item.
    Item,
    /// The `i`-th name in the `#[repr(..)]` attributes.
    Repr(usize),
    /// The `i`-th `#[syntax(..)]` attribute.
    SyntaxAttr(usize),
    /// The `i`-th variant.
    Variant(usize),
    /// Attribute `j` of variant `i`.
    VariantAttr(usize, usize),
}

/// An error of the derive: where it points and what it says.
pub struct DeriveError {
    pub site: ErrorSite,
    pub message: String,
}

/// The static data of a kind: none, an expression for its bytes, or its text.
pub enum StaticValue {
    NoStatic,
    Data(String),
    Text(String),
}

/// One kind of the derived implementation: its raw value, its variant, and
/// its static data.
pub struct KindEntry {
    pub raw: u32,
    pub name: String,
    pub static_value: StaticValue,
}

/// The model of an error.
pub open spec fn error_view(e: DeriveError) -> (ErrorSite, Seq<char>) {
    (e.site, e.message@)
}

pub open spec fn errors_view(es: Seq<DeriveError>) -> Seq<(ErrorSite, Seq<char>)> {
    es.map_values(|e: DeriveError| error_view(e))
}

/// The model of static data.
pub enum StaticView {
    NoStatic,
    Data(Seq<char>),
    Text(Seq<char>),
}

pub open spec fn static_view(v: StaticValue) -> StaticView {
    match v {
        StaticValue::NoStatic => StaticView::NoStatic,
        StaticValue::Data(d) => StaticView::Data(d@),
        StaticValue::Text(t) => StaticView::Text(t@),
    }
}

/// The model of a table entry.
pub open spec fn entry_view(k: KindEntry) -> (u32, Seq<char>, StaticView) {
    (k.raw, k.name@, static_view(k.static_value))
}

pub open spec fn table_view(t: Seq<KindEntry>) -> Seq<(u32, Seq<char>, StaticView)> {
    t.map_values(|k: KindEntry| entry_view(k))
}

/// The two attributes that give a kind its static data.
#[derive(Clone, Copy, PartialEq, Eq)]
pub enum StaticAttr {
    StaticText,
    StaticData,
}

pub open spec fn static_attr_name(w: StaticAttr) -> Seq<char> {
    match w {
        StaticAttr::StaticText => "static_text"@,
        StaticAttr::StaticData => "static_data"@,
    }
}

/// The message for an argument that could not be read.
pub open spec fn bad_argument_message(w: StaticAttr) -> Seq<char> {
    match w {
        StaticAttr::StaticText => "argument to `static_text` must be a string literal: `#[static_text(\"...\")]`"@,
        StaticAttr::StaticData => "argument to `static_data` must be an expression: `#[static_data(EXPR)]`"@,
    }
}

/// The message for an attribute without an argument.
pub open spec fn missing_argument_message(w: StaticAttr) -> Seq<char> {
    match w {
        StaticAttr::StaticText => "missing text for `static_text`: try `#[static_text(\"...\")]`"@,
        StaticAttr::StaticData => "missing data for `static_data`: try `#[static_data(EXPR)]`"@,
    }
}

/// The message for an attribute written with `=`.
pub open spec fn name_value_message(w: StaticAttr) -> Seq<char> {
    match w {
        StaticAttr::StaticText => "`static_text` takes the text as a function argument: `#[static_text(\"...\")]`"@,
        StaticAttr::StaticData => "`static_data` takes data as a function argument: `#[static_data(EXPR)]`"@,
    }
}

/// The message for a second attribute of the same kind.
pub open spec fn duplicate_message(w: StaticAttr) -> Seq<char> {
    match w {
        StaticAttr::StaticText => "duplicate static_text attribute"@,
        StaticAttr::StaticData => "duplicate static_data attribute"@,
    }
}

/// The value of the first well-formed attribute `w` among `attrs`.
pub open spec fn first_value(attrs: Seq<AttrDesc>, w: StaticAttr) -> Option<Seq<char>>
    decreases attrs.len(),
{
    if attrs.len() == 0 {
        None
    } else {
        match first_value(attrs.drop_last(), w) {
            Some(v) => Some(v),
            None => {
                let a = attrs.last();
                if a.name@ == static_attr_name(w) {
                    match a.form {
                        AttrForm::List(Ok(v)) => Some(v@),
                        _ => None,
                    }
                } else {
                    None
                }
            },
        }
    }
}

/// The errors of attribute `j` of variant `i`, read as attribute `w`; `seen`
/// tells whether a well-formed one came before.
pub open spec fn attr_errors(i: usize, j: usize, a: AttrDesc, w: StaticAttr, seen: bool) -> Seq<(ErrorSite, Seq<char>)> {
    let site = ErrorSite::VariantAttr(i, j);
    if a.name@ != static_attr_name(w) {
        Seq::empty()
    } else {
        match a.form {
            AttrForm::List(Ok(_)) => if seen {
                seq![(site, duplicate_message(w))]
            } else {
                Seq::empty()
            },
            AttrForm::List(Err(m)) => seq![(site, bad_argument_message(w)), (site, m@)],
            AttrForm::Path => seq![(site, missing_argument_message(w))],
            AttrForm::NameValue => seq![(site, name_value_message(w))],
        }
    }
}

/// The errors of the attributes `w` of variant `i`, in order.
pub open spec fn attrs_errors(i: usize, attrs: Seq<AttrDesc>, w: StaticAttr) -> Seq<(ErrorSite, Seq<char>)>
    decreases attrs.len(),
{
    if attrs.len() == 0 {
        Seq::empty()
    } else {
        attrs_errors(i, attrs.drop_last(), w) + attr_errors(
            i,
            (attrs.len() - 1) as usize,
            attrs.last(),
            w,
            first_value(attrs.drop_last(), w) is Some,
        )
    }
}

/// The errors of variant `i`: fields, a discriminant, then its static text
/// and its static data attributes.
pub open spec fn variant_errors(i: usize, v: VariantDesc) -> Seq<(ErrorSite, Seq<char>)> {
    let site = ErrorSite::Variant(i);
    (if v.has_fields {
        seq![(site, "syntax kinds with fields are not supported"@)]
    } else {
        Seq::empty()
    }) + (if v.has_discriminant {
        seq![(site, "syntax kinds are not allowed to have custom discriminant values"@)]
    } else {
        Seq::empty()
    }) + attrs_errors(i, v.attrs@, StaticAttr::StaticText) + attrs_errors(i, v.attrs@, StaticAttr::StaticData)
}

/// The errors of the variants, in order.
pub open spec fn variants_errors(vs: Seq<VariantDesc>) -> Seq<(ErrorSite, Seq<char>)>
    decreases vs.len(),
{
    if vs.len() == 0 {
        Seq::empty()
    } else {
        variants_errors(vs.drop_last()) + variant_errors((vs.len() - 1) as usize, vs.last())
    }
}

/// A second and every later `repr` name is a duplicate.
pub open spec fn repr_errors(reprs: Seq<String>) -> Seq<(ErrorSite, Seq<char>)>
    decreases reprs.len(),
{
    if reprs.len() <= 1 {
        Seq::empty()
    } else {
        repr_errors(reprs.drop_last()).push(
            (ErrorSite::Repr((reprs.len() - 1) as usize), "duplicate repr attribute"@),
        )
    }
}

/// Whether a well-formed `#[syntax(..)]` attribute is among `xs`.
pub open spec fn data_seen(xs: Seq<Result<(), String>>) -> bool {
    exists|j: int| 0 <= j < xs.len() && xs[j] is Ok
}

/// The errors of the `#[syntax(..)]` attributes: malformed ones, and every
/// well-formed one after the first.
pub open spec fn data_errors(xs: Seq<Result<(), String>>) -> Seq<(ErrorSite, Seq<char>)>
    decreases xs.len(),
{
    if xs.len() == 0 {
        Seq::empty()
    } else {
        let site = ErrorSite::SyntaxAttr((xs.len() - 1) as usize);
        data_errors(xs.drop_last()) + match xs.last() {
            Ok(_) => if data_seen(xs.drop_last()) {
                seq![(site, "duplicate data attribute"@)]
            } else {
                Seq::empty()
            },
            Err(m) => seq![(site, "expected `#[syntax(data = Type)]`"@), (site, m@)],
        }
    }
}

/// Whether the first `repr` name is `u32`.
pub open spec fn repr_is_u32(reprs: Seq<String>) -> bool {
    reprs.len() > 0 && reprs[0]@ == "u32"@
}

/// All errors of deriving `Syntax` for `e`, in the order they are found.
pub open spec fn derive_errors(e: EnumDesc) -> Seq<(ErrorSite, Seq<char>)> {
    if !e.is_enum {
        seq![(ErrorSite::Item, "`Syntax` can only be derived on enums"@)]
    } else {
        repr_errors(e.reprs@) + data_errors(e.syntax_attrs@) + variants_errors(e.variants@) + (if repr_is_u32(
            e.reprs@,
        ) {
            Seq::empty()
        } else {
            seq![(ErrorSite::Item, "syntax kind definitions must be `#[repr(u32)]` to derive `Syntax`"@)]
        })
    }
}

/// The static data of a variant: its static data where given, else its
/// static text, else none.
pub open spec fn variant_static(v: VariantDesc) -> StaticView {
    match first_value(v.attrs@, StaticAttr::StaticData) {
        Some(d) => StaticView::Data(d),
        None => match first_value(v.attrs@, StaticAttr::StaticText) {
            Some(t) => StaticView::Text(t),
            None => StaticView::NoStatic,
        },
    }
}

/// The table of kinds: variant `i` has raw value `i`.
pub open spec fn kind_table(vs: Seq<VariantDesc>) -> Seq<(u32, Seq<char>, StaticView)> {
    Seq::new(vs.len(), |i: int| (i as u32, vs[i].name@, variant_static(vs[i])))
}

fn literal(s: &'static str) -> (r: String)
    ensures
        r@ == s@,
{
    String::from_str(s)
}

fn push_error(out: &mut Vec<DeriveError>, site: ErrorSite, message: String)
    ensures
        errors_view(final(out)@) == errors_view(old(out)@).push((site, message@)),
{
    out.push(DeriveError { site, message });
    proof {
        assert(errors_view(out@) =~= errors_view(old(out)@).push((site, message@)));
    }
}

fn static_attr_name_string(w: StaticAttr) -> (r: String)
    ensures
        r@ == static_attr_name(w),
{
    match w {
        StaticAttr::StaticText => {
            proof {
                reveal_strlit("static_text");
            }
            literal("static_text")
        },
        StaticAttr::StaticData => {
            proof {
                reveal_strlit("static_data");
            }
            literal("static_data")
        },
    }
}

/// The errors of one attribute, appended to `out` (the spec of `attr_errors`).
fn push_attr_errors(out: &mut Vec<DeriveError>, i: usize, j: usize, a: &AttrDesc, w: StaticAttr, seen: bool)
    ensures
        errors_view(final(out)@) == errors_view(old(out)@) + attr_errors(i, j, *a, w, seen),
{
    let site = ErrorSite::VariantAttr(i, j);
    let ghost start = errors_view(out@);
    let wanted = static_attr_name_string(w);
    if a.name != wanted {
        proof {
            assert(errors_view(out@) =~= start + attr_errors(i, j, *a, w, seen));
        }
        return;
    }
    match &a.form {
        AttrForm::List(Ok(_)) => {
            if seen {
                let m = match w {
                    StaticAttr::StaticText => literal("duplicate static_text attribute"),
                    StaticAttr::StaticData => literal("duplicate static_data attribute"),
                };
                push_error(out, site, m);
            }
        },
        AttrForm::List(Err(parser)) => {
            let m = match w {
                StaticAttr::StaticText => literal(
                    "argument to `static_text` must be a string literal: `#[static_text(\"...\")]`",
                ),
                StaticAttr::StaticData => literal(
                    "argument to `static_data` must be an expression: `#[static_data(EXPR)]`",
                ),
            };
            push_error(out, site, m);
            push_error(out, site, parser.clone());
        },
        AttrForm::Path => {
            let m = match w {
                StaticAttr::StaticText => literal("missing text for `static_text`: try `#[static_text(\"...\")]`"),
                StaticAttr::StaticData => literal("missing data for `static_data`: try `#[static_data(EXPR)]`"),
            };
            push_error(out, site, m);
        },
        AttrForm::NameValue => {
            let m = match w {
                StaticAttr::StaticText => literal(
                    "`static_text` takes the text as a function argument: `#[static_text(\"...\")]`",
                ),
                StaticAttr::StaticData => literal(
                    "`static_data` takes data as a function argument: `#[static_data(EXPR)]`",
                ),
            };
            push_error(out, site, m);
        },
    }
    proof {
        assert(errors_view(out@) =~= start + attr_errors(i, j, *a, w, seen));
    }
}

/// Reads the attributes `w` of variant `i`: appends their errors to `out` and
/// returns the value of the first well-formed one (`get_static_text` and
/// `get_static_data` with the recording of the value).
fn read_static_attr(out: &mut Vec<DeriveError>, i: usize, attrs: &Vec<AttrDesc>, w: StaticAttr) -> (r: Option<String>)
    ensures
        errors_view(final(out)@) == errors_view(old(out)@) + attrs_errors(i, attrs@, w),
        r matches Some(v) ==> first_value(attrs@, w) == Some(v@),
        r is None ==> first_value(attrs@, w) is None,
{
    let ghost start = errors_view(out@);
    let wanted = static_attr_name_string(w);
    let mut value: Option<String> = None;
    let mut j: usize = 0;
    proof {
        assert(attrs@.take(0) =~= Seq::<AttrDesc>::empty());
        assert(errors_view(out@) =~= start + attrs_errors(i, attrs@.take(0), w));
    }
    while j < attrs.len()
        invariant
            j <= attrs@.len(),
            wanted@ == static_attr_name(w),
            errors_view(out@) == start + attrs_errors(i, attrs@.take(j as int), w),
            value matches Some(v) ==> first_value(attrs@.take(j as int), w) == Some(v@),
            value is None ==> first_value(attrs@.take(j as int), w) is None,
        decreases attrs@.len() - j,
    {
        let a = &attrs[j];
        proof {
            let pre = attrs@.take(j as int);
            let next = attrs@.take(j + 1);
            assert(next.drop_last() =~= pre);
            assert(next.last() == attrs@[j as int]);
        }
        push_attr_errors(out, i, j, a, w, value.is_some());
        if value.is_none() && a.name == wanted {
            match &a.form {
                AttrForm::List(Ok(v)) => {
                    value = Some(v.clone());
                },
                _ => {},
            }
        }
        proof {
            assert(errors_view(out@) =~= start + attrs_errors(i, attrs@.take(j + 1), w));
        }
        j = j + 1;
    }
    proof {
        assert(attrs@.take(attrs@.len() as int) =~= attrs@);
    }
    value
}

/// Checks whether `Syntax` can be derived for `e` and, where it can, gives the
/// table of kinds that the implementation follows: variant `i` has raw value
/// `i`, and static data where `#[static_data(..)]` gives it, else the bytes
/// of its `#[static_text(..)]`. Where it cannot, gives every error found.
pub fn derive_syntax_table(e: &EnumDesc) -> (r: Result<Vec<KindEntry>, Vec<DeriveError>>)
    requires
        e.variants@.len() <= u32::MAX,
    ensures
        r is Ok <==> derive_errors(*e).len() == 0,
        r matches Ok(t) ==> table_view(t@) == kind_table(e.variants@),
        r matches Err(es) ==> errors_view(es@) == derive_errors(*e),
{
    let mut errors: Vec<DeriveError> = Vec::new();
    proof {
        assert(errors_view(errors@) =~= Seq::<(ErrorSite, Seq<char>)>::empty());
    }
    if !e.is_enum {
        proof {
            reveal_strlit("`Syntax` can only be derived on enums");
        }
        push_error(&mut errors, ErrorSite::Item, literal("`Syntax` can only be derived on enums"));
        return Err(errors);
    }
    // Duplicate `repr` names.
    let mut k: usize = 0;
    proof {
        assert(e.reprs@.take(0) =~= Seq::<String>::empty());
    }
    while k < e.reprs.len()
        invariant
            k <= e.reprs@.len(),
            errors_view(errors@) == repr_errors(e.reprs@.take(k as int)),
        decreases e.reprs@.len() - k,
    {
        proof {
            reveal_strlit("duplicate repr attribute");
            assert(e.reprs@.take(k + 1).drop_last() =~= e.reprs@.take(k as int));
        }
        if k > 0 {
            push_error(&mut errors, ErrorSite::Repr(k), literal("duplicate repr attribute"));
        }
        k = k + 1;
    }
    proof {
        assert(e.reprs@.take(e.reprs@.len() as int) =~= e.reprs@);
    }
    let ghost after_reprs = errors_view(errors@);
    // The `#[syntax(data = ..)]` attributes.
    let mut seen = false;
    let mut j: usize = 0;
    proof {
        assert(e.syntax_attrs@.take(0) =~= Seq::<Result<(), String>>::empty());
        assert(errors_view(errors@) =~= after_reprs + data_errors(e.syntax_attrs@.take(0)));
    }
    while j < e.syntax_attrs.len()
        invariant
            j <= e.syntax_attrs@.len(),
            errors_view(errors@) == after_reprs + data_errors(e.syntax_attrs@.take(j as int)),
            seen == data_seen(e.syntax_attrs@.take(j as int)),
        decreases e.syntax_attrs@.len() - j,
    {
        let ghost pre = e.syntax_attrs@.take(j as int);
        let ghost next = e.syntax_attrs@.take(j + 1);
        let ghost before = errors_view(errors@);
        proof {
            assert(next.drop_last() =~= pre);
            assert(next.last() == e.syntax_attrs@[j as int]);
            reveal_strlit("duplicate data attribute");
            reveal_strlit("expected `#[syntax(data = Type)]`");
        }
        match &e.syntax_attrs[j] {
            Ok(_) => {
                if seen {
                    push_error(&mut errors, ErrorSite::SyntaxAttr(j), literal("duplicate data attribute"));
                }
                seen = true;
                proof {
                    assert(next[j as int] is Ok);
                }
            },
            Err(m) => {
                push_error(&mut errors, ErrorSite::SyntaxAttr(j), literal("expected `#[syntax(data = Type)]`"));
                push_error(&mut errors, ErrorSite::SyntaxAttr(j), m.clone());
                proof {
                    if data_seen(next) {
                        let w = choose|w: int| 0 <= w < next.len() && next[w] is Ok;
                        assert(w < j);
                        assert(pre[w] == next[w]);
                    }
                }
            },
        }
        proof {
            if data_seen(pre) {
                let w = choose|w: int| 0 <= w < pre.len() && pre[w] is Ok;
                assert(next[w] == pre[w]);
            }
            assert(errors_view(errors@) =~= after_reprs + data_errors(next));
        }
        j = j + 1;
    }
    proof {
        assert(e.syntax_attrs@.take(e.syntax_attrs@.len() as int) =~= e.syntax_attrs@);
    }
    let ghost after_data = errors_view(errors@);
    // The variants, building the table alongside.
    let mut table: Vec<KindEntry> = Vec::new();
    let mut i: usize = 0;
    proof {
        assert(e.variants@.take(0) =~= Seq::<VariantDesc>::empty());
        assert(errors_view(errors@) =~= after_data + variants_errors(e.variants@.take(0)));
        assert(table_view(table@) =~= kind_table(e.variants@).take(0));
    }
    while i < e.variants.len()
        invariant
            i <= e.variants@.len(),
            e.variants@.len() <= u32::MAX,
            errors_view(errors@) == after_data + variants_errors(e.variants@.take(i as int)),
            table_view(table@) == kind_table(e.variants@).take(i as int),
        decreases e.variants@.len() - i,
    {
        let v = &e.variants[i];
        let ghost before = errors_view(errors@);
        let site = ErrorSite::Variant(i);
        proof {
            reveal_strlit("syntax kinds with fields are not supported");
            reveal_strlit("syntax kinds are not allowed to have custom discriminant values");
        }
        if v.has_fields {
            push_error(&mut errors, site, literal("syntax kinds with fields are not supported"));
        }
        if v.has_discriminant {
            push_error(&mut errors, site, literal("syntax kinds are not allowed to have custom discriminant values"));
        }
        let text = read_static_attr(&mut errors, i, &v.attrs, StaticAttr::StaticText);
        let data = read_static_attr(&mut errors, i, &v.attrs, StaticAttr::StaticData);
        let static_value = match data {
            Some(d) => StaticValue::Data(d),
            None => match text {
                Some(t) => StaticValue::Text(t),
                None => StaticValue::NoStatic,
            },
        };
        let ghost tbefore = table_view(table@);
        table.push(KindEntry { raw: i as u32, name: v.name.clone(), static_value });
        proof {
            let pre = e.variants@.take(i as int);
            let next = e.variants@.take(i + 1);
            assert(next.drop_last() =~= pre);
            assert(next.last() == e.variants@[i as int]);
            assert(before + variant_errors(i, *v) =~= errors_view(errors@));
            assert(errors_view(errors@) =~= after_data + variants_errors(next));
            assert(table_view(table@) =~= tbefore.push(entry_view(table@[i as int])));
            assert(table_view(table@) =~= kind_table(e.variants@).take(i + 1));
        }
        i = i + 1;
    }
    proof {
        assert(e.variants@.take(e.variants@.len() as int) =~= e.variants@);
        assert(kind_table(e.variants@).take(e.variants@.len() as int) =~= kind_table(e.variants@));
    }
    // The enum must be `#[repr(u32)]`.
    proof {
        reveal_strlit("u32");
        reveal_strlit("syntax kind definitions must be `#[repr(u32)]` to derive `Syntax`");
    }
    let u32_name = literal("u32");
    let repr_ok = e.reprs.len() > 0 && e.reprs[0] == u32_name;
    let ghost before_repr = errors_view(errors@);
    if !repr_ok {
        push_error(
            &mut errors,
            ErrorSite::Item,
            literal("syntax kind definitions must be `#[repr(u32)]` to derive `Syntax`"),
        );
    }
    proof {
        assert(repr_ok == repr_is_u32(e.reprs@));
        assert(errors_view(errors@) =~= derive_errors(*e));
    }
    if errors.len() == 0 {
        Ok(table)
    } else {
        Err(errors)
    }
}


/// What the right part of a concatenation holds, the whole holds.
proof fn lemma_contains_right<A>(a: Seq<A>, b: Seq<A>, x: A)
    requires
        b.contains(x),
    ensures
        (a + b).contains(x),
{
    let k = choose|k: int| 0 <= k < b.len() && b[k] == x;
    assert((a + b)[a.len() + k] == x);
}

/// What the left part of a concatenation holds, the whole holds.
proof fn lemma_contains_left<A>(a: Seq<A>, b: Seq<A>, x: A)
    requires
        a.contains(x),
    ensures
        (a + b).contains(x),
{
    let k = choose|k: int| 0 <= k < a.len() && a[k] == x;
    assert((a + b)[k] == x);
}

/// The errors of every variant are among the errors of the variants.
proof fn lemma_variants_errors_hold(vs: Seq<VariantDesc>, i: int, x: (ErrorSite, Seq<char>))
    requires
        0 <= i < vs.len(),
        variant_errors(i as usize, vs[i]).contains(x),
    ensures
        variants_errors(vs).contains(x),
    decreases vs.len(),
{
    if i == vs.len() - 1 {
        lemma_contains_right(variants_errors(vs.drop_last()), variant_errors(i as usize, vs.last()), x);
    } else {
        assert(vs.drop_last()[i] == vs[i]);
        lemma_variants_errors_hold(vs.drop_last(), i, x);
        lemma_contains_left(variants_errors(vs.drop_last()), variant_errors((vs.len() - 1) as usize, vs.last()), x);
    }
}

/// A flawed variant is refused: deriving for an enum reports, at variant `i`,
/// that it has fields where it has them and that it has a custom
/// discriminant where it has one, so no table is made for such an enum.
pub proof fn lemma_flawed_variant_refused(e: EnumDesc, i: int)
    requires
        e.is_enum,
        0 <= i < e.variants@.len(),
    ensures
        e.variants@[i].has_fields ==> derive_errors(e).contains(
            (ErrorSite::Variant(i as usize), "syntax kinds with fields are not supported"@),
        ),
        e.variants@[i].has_discriminant ==> derive_errors(e).contains(
            (ErrorSite::Variant(i as usize), "syntax kinds are not allowed to have custom discriminant values"@),
        ),
        e.variants@[i].has_fields || e.variants@[i].has_discriminant ==> derive_errors(e).len() > 0,
{
    let v = e.variants@[i];
    let site = ErrorSite::Variant(i as usize);
    let fields_msg = "syntax kinds with fields are not supported"@;
    let disc_msg = "syntax kinds are not allowed to have custom discriminant values"@;
    let fpart: Seq<(ErrorSite, Seq<char>)> = if v.has_fields {
        seq![(site, fields_msg)]
    } else {
        Seq::empty()
    };
    let dpart: Seq<(ErrorSite, Seq<char>)> = if v.has_discriminant {
        seq![(site, disc_msg)]
    } else {
        Seq::empty()
    };
    let rest = attrs_errors(i as usize, v.attrs@, StaticAttr::StaticText) + attrs_errors(
        i as usize,
        v.attrs@,
        StaticAttr::StaticData,
    );
    assert(variant_errors(i as usize, v) == fpart + dpart + rest);
    let head = repr_errors(e.reprs@) + data_errors(e.syntax_attrs@);
    let tail: Seq<(ErrorSite, Seq<char>)> = if repr_is_u32(e.reprs@) {
        Seq::empty()
    } else {
        seq![(ErrorSite::Item, "syntax kind definitions must be `#[repr(u32)]` to derive `Syntax`"@)]
    };
    assert(derive_errors(e) == head + variants_errors(e.variants@) + tail);
    if v.has_fields {
        let x = (site, fields_msg);
        assert(fpart[0] == x);
        lemma_contains_left(fpart, dpart, x);
        lemma_contains_left(fpart + dpart, rest, x);
        lemma_variants_errors_hold(e.variants@, i, x);
        lemma_contains_right(head, variants_errors(e.variants@), x);
        lemma_contains_left(head + variants_errors(e.variants@), tail, x);
    }
    if v.has_discriminant {
        let x = (site, disc_msg);
        assert(dpart[0] == x);
        lemma_contains_right(fpart, dpart, x);
        lemma_contains_left(fpart + dpart, rest, x);
        lemma_variants_errors_hold(e.variants@, i, x);
        lemma_contains_right(head, variants_errors(e.variants@), x);
        lemma_contains_left(head + variants_errors(e.variants@), tail, x);
    }
}

/// Only an enum whose first `repr` is `u32` is accepted: any other item is
/// refused.
pub proof fn lemma_needs_repr_u32(e: EnumDesc)
    requires
        !e.is_enum || !repr_is_u32(e.reprs@),
    ensures
        derive_errors(e).len() > 0,
{
}

} // verus!
