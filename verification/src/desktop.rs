//! The desktop-entry expander: re-emits the template's sections and
//! attribute lines in order, and appends one localized line per resolved
//! language after each recognized localizable attribute of the primary
//! section.

use vstd::prelude::*;
use vstd::string::*;
use crate::text::{underscored, pairs_view, str_eq_str, underscore_tag};
use crate::errors::{LocalizeError, ErrorModel};
use crate::entity::{App, AppModel, FluentString};
use crate::catalog::{Context, resolve_spec};

verus! {

/// Model of an [`EntryAttr`].
#[verifier::ext_equal]
pub struct AttrModel {
    pub key: Seq<char>,
    pub param: Option<Seq<char>>,
    pub values: Seq<Seq<char>>,
}

/// One attribute of a desktop-entry section: a key, an optional bracketed
/// parameter, and the value of every line carrying that key, in order.
#[derive(Debug)]
pub struct EntryAttr {
    pub key: String,
    pub param: Option<String>,
    pub values: Vec<String>,
}

impl View for EntryAttr {
    type V = AttrModel;

    open spec fn view(&self) -> AttrModel {
        AttrModel {
            key: self.key@,
            param: match self.param {
                Some(p) => Some(p@),
                None => None,
            },
            values: self.values@.map_values(|v: String| v@),
        }
    }
}

/// Model of an [`EntrySection`].
#[verifier::ext_equal]
pub struct SectionModel {
    pub name: Seq<char>,
    pub attrs: Seq<AttrModel>,
}

/// One section of a desktop-entry template: its name and its attributes in
/// order.
#[derive(Debug)]
pub struct EntrySection {
    pub name: String,
    pub attrs: Vec<EntryAttr>,
}

impl View for EntrySection {
    type V = SectionModel;

    open spec fn view(&self) -> SectionModel {
        SectionModel { name: self.name@, attrs: self.attrs@.map_values(|a: EntryAttr| a@) }
    }
}

/// View of a parsed template: every section's model, in order.
pub open spec fn sections_view(v: Seq<EntrySection>) -> Seq<SectionModel> {
    v.map_values(|s: EntrySection| s@)
}

/// View of an attribute list.
pub open spec fn attrs_view(v: Seq<EntryAttr>) -> Seq<AttrModel> {
    v.map_values(|a: EntryAttr| a@)
}

/// What parsing desktop-entry text yields: the sections with their
/// attributes in order, or nothing when the text is rejected.
pub uninterp spec fn desktop_parse(bytes: Seq<u8>) -> Option<Seq<SectionModel>>;

/// Relies on freedesktop_entry_parser's `Entry::parse`: the sections in
/// input order (repeated section titles merged), each attribute with its
/// key, optional bracketed parameter and value lines; a function of the
/// input bytes alone.
#[verifier::external_body]
fn parse_desktop(bytes: &[u8]) -> (r: Result<Vec<EntrySection>, String>)
    ensures
        r matches Ok(v) ==> desktop_parse(bytes@) == Some(sections_view(v@)),
        r is Err ==> desktop_parse(bytes@) is None,
{
    let entry = match freedesktop_entry_parser::Entry::parse(bytes) {
        Ok(e) => e,
        Err(e) => return Err(e.to_string()),
    };
    let mut out = Vec::new();
    for (name, section) in entry.sections() {
        let mut attrs = Vec::new();
        for (key, values) in section.attrs() {
            attrs.push(
                EntryAttr { key: key.key.clone(), param: key.param.clone(), values: values.clone() },
            );
        }
        out.push(EntrySection { name: name.clone(), attrs });
    }
    Ok(out)
}

/// The message of `app` that a recognized localizable key of the primary
/// section names; every other section or key passes through unlocalized.
pub open spec fn field_for(app: AppModel, section: Seq<char>, key: Seq<char>) -> Option<
    Seq<char>,
> {
    if section == "Desktop Entry"@ {
        if key == "Name"@ {
            Some(app.title)
        } else if key == "Comment"@ {
            app.comment
        } else if key == "Keywords"@ {
            app.keywords
        } else {
            None
        }
    } else {
        None
    }
}

/// The attribute lines appended for one resolved message: one per language
/// in registry order, reusing the key with the underscored tag as parameter.
pub open spec fn loc_attrs(key: Seq<char>, resolved: Seq<(Seq<char>, Seq<char>)>) -> Seq<
    AttrModel,
> {
    resolved.map_values(
        |p: (Seq<char>, Seq<char>)| AttrModel {
            key: key,
            param: Some(underscored(p.0)),
            values: seq![p.1],
        },
    )
}

/// Expansion of one attribute: itself, followed by its localized lines when
/// it names a populated field; a recognized attribute that already carries a
/// bracketed parameter is the double-localization error.
pub open spec fn expand_attr(
    app: AppModel,
    reg: Seq<(Seq<char>, Map<Seq<char>, Seq<char>>)>,
    section: Seq<char>,
    a: AttrModel,
) -> Result<Seq<AttrModel>, ErrorModel> {
    match field_for(app, section, a.key) {
        None => Ok(seq![a]),
        Some(id) => match a.param {
            Some(p) => Err(ErrorModel::LocalizedKey(a.key, p)),
            None => Ok(seq![a] + loc_attrs(a.key, resolve_spec(reg, id))),
        },
    }
}

/// Expansion of an attribute list, in order; the first error wins.
pub open spec fn expand_attrs(
    app: AppModel,
    reg: Seq<(Seq<char>, Map<Seq<char>, Seq<char>>)>,
    section: Seq<char>,
    attrs: Seq<AttrModel>,
) -> Result<Seq<AttrModel>, ErrorModel>
    decreases attrs.len(),
{
    if attrs.len() == 0 {
        Ok(Seq::empty())
    } else {
        match expand_attrs(app, reg, section, attrs.drop_last()) {
            Err(e) => Err(e),
            Ok(pre) => match expand_attr(app, reg, section, attrs.last()) {
                Err(e) => Err(e),
                Ok(adds) => Ok(pre + adds),
            },
        }
    }
}

/// Expansion of a whole template, section by section; the first error wins.
pub open spec fn expand_sections(
    app: AppModel,
    reg: Seq<(Seq<char>, Map<Seq<char>, Seq<char>>)>,
    secs: Seq<SectionModel>,
) -> Result<Seq<SectionModel>, ErrorModel>
    decreases secs.len(),
{
    if secs.len() == 0 {
        Ok(Seq::empty())
    } else {
        match expand_sections(app, reg, secs.drop_last()) {
            Err(e) => Err(e),
            Ok(pre) => match expand_attrs(app, reg, secs.last().name, secs.last().attrs) {
                Err(e) => Err(e),
                Ok(attrs) => Ok(pre + seq![SectionModel { name: secs.last().name, attrs }]),
            },
        }
    }
}

proof fn lemma_expand_sections_err_mono(
    app: AppModel,
    reg: Seq<(Seq<char>, Map<Seq<char>, Seq<char>>)>,
    secs: Seq<SectionModel>,
    k: int,
)
    requires
        0 <= k <= secs.len(),
        expand_sections(app, reg, secs.take(k)) is Err,
    ensures
        expand_sections(app, reg, secs) == expand_sections(app, reg, secs.take(k)),
    decreases secs.len(),
{
    if secs.len() > k {
        assert(secs.drop_last().take(k) =~= secs.take(k));
        lemma_expand_sections_err_mono(app, reg, secs.drop_last(), k);
    } else {
        assert(secs.take(k) =~= secs);
    }
}

proof fn lemma_expand_attrs_err_mono(
    app: AppModel,
    reg: Seq<(Seq<char>, Map<Seq<char>, Seq<char>>)>,
    section: Seq<char>,
    attrs: Seq<AttrModel>,
    k: int,
)
    requires
        0 <= k <= attrs.len(),
        expand_attrs(app, reg, section, attrs.take(k)) is Err,
    ensures
        expand_attrs(app, reg, section, attrs) == expand_attrs(app, reg, section, attrs.take(k)),
    decreases attrs.len(),
{
    if attrs.len() > k {
        assert(attrs.drop_last().take(k) =~= attrs.take(k));
        lemma_expand_attrs_err_mono(app, reg, section, attrs.drop_last(), k);
    } else {
        assert(attrs.take(k) =~= attrs);
    }
}

impl Clone for EntryAttr {
    /// A clone carries the same key, parameter and values.
    fn clone(&self) -> (r: Self)
        ensures
            r@ == self@,
    {
        let mut values: Vec<String> = Vec::new();
        let mut i: usize = 0;
        while i < self.values.len()
            invariant
                i <= self.values@.len(),
                values@.len() == i,
                forall|k: int| 0 <= k < i ==> values@[k] == self.values@[k],
            decreases self.values@.len() - i,
        {
            values.push(self.values[i].clone());
            i = i + 1;
        }
        proof {
            assert(values@ =~= self.values@);
        }
        let param = match &self.param {
            Some(p) => Some(p.clone()),
            None => None,
        };
        EntryAttr { key: self.key.clone(), param, values }
    }
}

fn localize_attr(out: &mut Vec<EntryAttr>, a: &EntryAttr, f: FluentString, ctx: &Context) -> (d:
    Vec<String>)
    ensures
        attrs_view(final(out)@) == attrs_view(old(out)@) + (seq![a@] + loc_attrs(
            a@.key,
            resolve_spec(ctx@, f@),
        )),
{
    out.push(a.clone());
    let ghost base = attrs_view(out@);
    let (resolved, diagnostics) = f.get(ctx);
    let ghost rv = pairs_view(resolved@);
    let mut k: usize = 0;
    proof {
        assert(base =~= attrs_view(old(out)@) + seq![a@]);
        assert(loc_attrs(a@.key, rv.take(0)) =~= Seq::<AttrModel>::empty());
        assert(base + loc_attrs(a@.key, rv.take(0)) =~= base);
    }
    while k < resolved.len()
        invariant
            k <= resolved@.len(),
            rv == pairs_view(resolved@),
            rv.len() == resolved@.len(),
            attrs_view(out@) == base + loc_attrs(a@.key, rv.take(k as int)),
        decreases resolved@.len() - k,
    {
        let tag_u = underscore_tag(resolved[k].0.as_str());
        let mut vals: Vec<String> = Vec::new();
        vals.push(resolved[k].1.clone());
        let key = clone_string(&a.key);
        let na = EntryAttr { key, param: Some(tag_u), values: vals };
        proof {
            assert(rv[k as int] == (resolved@[k as int].0@, resolved@[k as int].1@));
            assert(na.values@.map_values(|v: String| v@) =~= seq![rv[k as int].1]);
            assert(na@ == (AttrModel {
                key: a@.key,
                param: Some(underscored(rv[k as int].0)),
                values: seq![rv[k as int].1],
            }));
        }
        let ghost na_model = na@;
        let ghost vecbefore = out@;
        out.push(na);
        proof {
            assert(rv.take(k + 1).drop_last() =~= rv.take(k as int));
            assert(loc_attrs(a@.key, rv.take(k + 1)) =~~= loc_attrs(a@.key, rv.take(k as int))
                + seq![na_model]);
            assert(attrs_view(out@) =~~= attrs_view(vecbefore) + seq![na_model]);
            assert(attrs_view(vecbefore) + seq![na_model] =~~= base + loc_attrs(
                a@.key,
                rv.take(k + 1),
            ));
        }
        k = k + 1;
    }
    proof {
        assert(rv.take(rv.len() as int) =~= rv);
        assert(attrs_view(old(out)@) + seq![a@] + loc_attrs(a@.key, rv) =~= attrs_view(
            old(out)@,
        ) + (seq![a@] + loc_attrs(a@.key, rv)));
    }
    diagnostics
}

fn clone_string(s: &String) -> (r: String)
    ensures
        r@ == s@,
{
    s.clone()
}

/// Expands a parsed desktop-entry template: every section and attribute is
/// kept in order, and each recognized localizable attribute of the primary
/// section is followed by one localized attribute per resolved language. A
/// recognized attribute that already carries a bracketed parameter fails
/// with the double-localization error. Recoverable resolution errors come
/// back as diagnostic strings.
pub fn localize_sections(secs: &Vec<EntrySection>, app: &App, ctx: &Context) -> (r: Result<
    (Vec<EntrySection>, Vec<String>),
    LocalizeError,
>)
    ensures
        match expand_sections(app@, ctx@, sections_view(secs@)) {
            Ok(out) => r matches Ok(p) && sections_view(p.0@) == out,
            Err(em) => r matches Err(e) && e@ == em,
        },
{
    let ghost sv = sections_view(secs@);
    let mut diagnostics: Vec<String> = Vec::new();
    let mut out: Vec<EntrySection> = Vec::new();
    let mut i: usize = 0;
    proof {
        assert(sv.take(0) =~= Seq::<SectionModel>::empty());
        assert(sections_view(out@) =~= Seq::<SectionModel>::empty());
    }
    while i < secs.len()
        invariant
            i <= secs@.len(),
            sv == sections_view(secs@),
            sv.len() == secs@.len(),
            expand_sections(app@, ctx@, sv.take(i as int)) == Ok::<_, ErrorModel>(
                sections_view(out@),
            ),
        decreases secs@.len() - i,
    {
        proof {
            assert(sv.take(i + 1).drop_last() =~= sv.take(i as int));
            assert(sv.take(i + 1).last() == sv[i as int]);
            assert(sv[i as int] == secs@[i as int]@);
        }
        let sec = &secs[i];
        let ghost av = attrs_view(sec.attrs@);
        let sec_is_de = str_eq_str(sec.name.as_str(), "Desktop Entry");
        let mut attrs: Vec<EntryAttr> = Vec::new();
        let mut j: usize = 0;
        proof {
            assert(av.take(0) =~= Seq::<AttrModel>::empty());
            assert(attrs_view(attrs@) =~= Seq::<AttrModel>::empty());
        }
        while j < sec.attrs.len()
            invariant
                j <= sec.attrs@.len(),
                av == attrs_view(sec.attrs@),
                av.len() == sec.attrs@.len(),
                sec_is_de == (sec.name@ == "Desktop Entry"@),
                i < secs@.len(),
                sv == sections_view(secs@),
                sv[i as int] == secs@[i as int]@,
                sv[i as int].attrs == av,
                sv[i as int].name == sec.name@,
                expand_sections(app@, ctx@, sv.take(i as int)) == Ok::<Seq<SectionModel>, ErrorModel>(
                    sections_view(out@),
                ),
                expand_attrs(app@, ctx@, sec.name@, av.take(j as int)) == Ok::<
                    _,
                    ErrorModel,
                >(attrs_view(attrs@)),
            decreases sec.attrs@.len() - j,
        {
            proof {
                assert(av.take(j + 1).drop_last() =~= av.take(j as int));
                assert(av.take(j + 1).last() == av[j as int]);
                assert(av[j as int] == sec.attrs@[j as int]@);
            }
            let a = &sec.attrs[j];
            let field: Option<FluentString> = if sec_is_de {
                if str_eq_str(a.key.as_str(), "Name") {
                    Some(app.title_msg())
                } else if str_eq_str(a.key.as_str(), "Comment") {
                    app.comment_msg()
                } else if str_eq_str(a.key.as_str(), "Keywords") {
                    app.keywords_msg()
                } else {
                    None
                }
            } else {
                None
            };
            proof {
                match field {
                    Some(f) => {
                        assert(field_for(app@, sec.name@, a@.key) == Some(f@));
                    },
                    None => {
                        assert(field_for(app@, sec.name@, a@.key) is None);
                    },
                }
            }
            match field {
                Some(f) => {
                    match &a.param {
                        Some(p) => {
                            let e = LocalizeError::LocalizedKey {
                                key: clone_string(&a.key),
                                param: clone_string(p),
                            };
                            proof {
                                assert(av.take(j + 1).drop_last() =~= av.take(j as int));
                                assert(av.take(j + 1).last() == av[j as int]);
                                assert(av[j as int] == sec.attrs@[j as int]@);
                                assert(expand_attrs(app@, ctx@, sec.name@, av.take(j + 1))
                                    is Err);
                                lemma_expand_attrs_err_mono(app@, ctx@, sec.name@, av, j + 1);
                                assert(av.take(av.len() as int) =~= av);
                                assert(sv.take(i + 1).drop_last() =~= sv.take(i as int));
                                assert(sv.take(i + 1).last() == sv[i as int]);
                                assert(expand_sections(app@, ctx@, sv.take(i + 1)) is Err);
                                lemma_expand_sections_err_mono(app@, ctx@, sv, i + 1);
                                assert(sv.take(sv.len() as int) =~= sv);
                            }
                            return Err(e);
                        },
                        None => {
                            let mut d = localize_attr(&mut attrs, a, f, ctx);
                            diagnostics.append(&mut d);
                        },
                    }
                },
                None => {
                    attrs.push(a.clone());
                    proof {
                        assert(attrs_view(attrs@) =~= expand_attrs(
                            app@,
                            ctx@,
                            sec.name@,
                            av.take(j as int),
                        )->Ok_0 + seq![a@]);
                    }
                },
            }
            j = j + 1;
        }
        proof {
            assert(av.take(av.len() as int) =~= av);
        }
        let name = clone_string(&sec.name);
        out.push(EntrySection { name, attrs });
        proof {
            assert(sections_view(out@) =~= expand_sections(app@, ctx@, sv.take(i as int))->Ok_0
                + seq![
                SectionModel {
                    name: secs@[i as int].name@,
                    attrs: expand_attrs(app@, ctx@, secs@[i as int].name@, av)->Ok_0,
                },
            ]);
        }
        i = i + 1;
    }
    proof {
        assert(sv.take(sv.len() as int) =~= sv);
    }
    Ok((out, diagnostics))
}

/// The text of one attribute line: the key, the bracketed parameter if any,
/// `=`, the value, and a line break.
pub open spec fn render_line(key: Seq<char>, param: Option<Seq<char>>, value: Seq<char>) -> Seq<
    char,
> {
    key + (match param {
        Some(p) => seq!['['] + p + seq![']'],
        None => Seq::<char>::empty(),
    }) + seq!['='] + value + seq!['\n']
}

/// The lines of one attribute: one per value, in order.
pub open spec fn render_values(
    key: Seq<char>,
    param: Option<Seq<char>>,
    values: Seq<Seq<char>>,
) -> Seq<char>
    decreases values.len(),
{
    if values.len() == 0 {
        Seq::empty()
    } else {
        render_values(key, param, values.drop_last()) + render_line(key, param, values.last())
    }
}

/// The lines of an attribute list, in order.
pub open spec fn render_attrs(attrs: Seq<AttrModel>) -> Seq<char>
    decreases attrs.len(),
{
    if attrs.len() == 0 {
        Seq::empty()
    } else {
        render_attrs(attrs.drop_last()) + render_values(
            attrs.last().key,
            attrs.last().param,
            attrs.last().values,
        )
    }
}

/// The text of a section header line.
pub open spec fn render_header(name: Seq<char>) -> Seq<char> {
    seq!['['] + name + seq![']', '\n']
}

/// The text of a whole template: each section's header then its lines.
pub open spec fn render_sections(secs: Seq<SectionModel>) -> Seq<char>
    decreases secs.len(),
{
    if secs.len() == 0 {
        Seq::empty()
    } else {
        render_sections(secs.drop_last()) + render_header(secs.last().name) + render_attrs(
            secs.last().attrs,
        )
    }
}

/// Writes a parsed template back to text, line for line.
pub fn render_sections_str(secs: &Vec<EntrySection>) -> (r: String)
    ensures
        r@ == render_sections(sections_view(secs@)),
{
    let ghost sv = sections_view(secs@);
    let mut out = String::new();
    let mut i: usize = 0;
    proof {
        assert(sv.take(0) =~= Seq::<SectionModel>::empty());
    }
    while i < secs.len()
        invariant
            i <= secs@.len(),
            sv == sections_view(secs@),
            sv.len() == secs@.len(),
            out@ == render_sections(sv.take(i as int)),
        decreases secs@.len() - i,
    {
        let sec = &secs[i];
        let ghost av = attrs_view(sec.attrs@);
        out.append("[");
        out.append(sec.name.as_str());
        out.append("]\n");
        let ghost header_done = out@;
        proof {
            reveal_strlit("[");
            reveal_strlit("]\n");
            assert(header_done =~= render_sections(sv.take(i as int)) + render_header(
                sec.name@,
            ));
        }
        let mut j: usize = 0;
        proof {
            assert(av.take(0) =~= Seq::<AttrModel>::empty());
        }
        while j < sec.attrs.len()
            invariant
                j <= sec.attrs@.len(),
                av == attrs_view(sec.attrs@),
                av.len() == sec.attrs@.len(),
                i < secs@.len(),
                sv == sections_view(secs@),
                sv[i as int].attrs == av,
                sv[i as int].name == sec.name@,
                header_done == render_sections(sv.take(i as int)) + render_header(sec.name@),
                out@ == header_done + render_attrs(av.take(j as int)),
            decreases sec.attrs@.len() - j,
        {
            let a = &sec.attrs[j];
            let ghost vv = a@.values;
            let ghost attr_base = out@;
            let mut k: usize = 0;
            proof {
                assert(vv.take(0) =~= Seq::<Seq<char>>::empty());
            }
            while k < a.values.len()
                invariant
                    k <= a.values@.len(),
                    vv == a@.values,
                    vv.len() == a.values@.len(),
                    out@ == attr_base + render_values(a@.key, a@.param, vv.take(k as int)),
                decreases a.values@.len() - k,
            {
                out.append(a.key.as_str());
                match &a.param {
                    Some(p) => {
                        out.append("[");
                        out.append(p.as_str());
                        out.append("]");
                    },
                    None => (),
                }
                out.append("=");
                out.append(a.values[k].as_str());
                out.append("\n");
                proof {
                    reveal_strlit("[");
                    reveal_strlit("]");
                    reveal_strlit("=");
                    reveal_strlit("\n");
                    assert(vv.take(k + 1).drop_last() =~= vv.take(k as int));
                    assert(vv[k as int] == a.values@[k as int]@);
                    assert(out@ =~= attr_base + render_values(a@.key, a@.param, vv.take(k
                        + 1)));
                }
                k = k + 1;
            }
            proof {
                assert(vv.take(vv.len() as int) =~= vv);
                assert(av.take(j + 1).drop_last() =~= av.take(j as int));
                assert(av.take(j + 1).last() == av[j as int]);
                assert(av[j as int] == sec.attrs@[j as int]@);
                assert(out@ =~= header_done + render_attrs(av.take(j + 1)));
            }
            j = j + 1;
        }
        proof {
            assert(av.take(av.len() as int) =~= av);
            assert(sv.take(i + 1).drop_last() =~= sv.take(i as int));
            assert(sv.take(i + 1).last() == sv[i as int]);
            assert(sv[i as int] == secs@[i as int]@);
            assert(out@ =~= render_sections(sv.take(i + 1)));
        }
        i = i + 1;
    }
    proof {
        assert(sv.take(sv.len() as int) =~= sv);
    }
    out
}

impl App {
    /// Expands a desktop-entry template given as bytes: the template is
    /// re-emitted line for line, with one appended localized line per
    /// resolved language after each recognized localizable attribute of the
    /// primary section, in language order, alongside the diagnostic strings
    /// of recoverable resolution errors. A recognized attribute that already
    /// carries a bracketed parameter fails with the double-localization
    /// error; unparseable input fails with a syntax error.
    pub fn expand_desktop(&self, template: &[u8], ctx: &Context) -> (r: Result<
        (String, Vec<String>),
        LocalizeError,
    >)
        ensures
            desktop_parse(template@) is None ==> (r matches Err(e) && e@
                == ErrorModel::TemplateSyntax),
            desktop_parse(template@) matches Some(secs) ==> match expand_sections(
                self@,
                ctx@,
                secs,
            ) {
                Ok(out) => r matches Ok(t) && t.0@ == render_sections(out),
                Err(em) => r matches Err(e) && e@ == em,
            },
    {
        let secs = match parse_desktop(template) {
            Ok(s) => s,
            Err(detail) => {
                return Err(LocalizeError::TemplateSyntax { detail });
            },
        };
        let (expanded, diagnostics) = match localize_sections(&secs, self, ctx) {
            Ok(p) => p,
            Err(e) => {
                return Err(e);
            },
        };
        Ok((render_sections_str(&expanded), diagnostics))
    }
}

/// An attribute of the shape the expander appends: a recognized localizable
/// key of a populated field, carrying a bracketed parameter.
pub open spec fn is_appended_attr(app: AppModel, section: Seq<char>, a: AttrModel) -> bool {
    field_for(app, section, a.key) is Some && a.param is Some
}

/// The attributes of one section with every appended-shaped attribute
/// removed.
pub open spec fn keep_original(
    app: AppModel,
    section: Seq<char>,
    attrs: Seq<AttrModel>,
) -> Seq<AttrModel>
    decreases attrs.len(),
{
    if attrs.len() == 0 {
        Seq::empty()
    } else {
        keep_original(app, section, attrs.drop_last()) + (if is_appended_attr(
            app,
            section,
            attrs.last(),
        ) {
            Seq::<AttrModel>::empty()
        } else {
            seq![attrs.last()]
        })
    }
}

/// The template with every appended-shaped attribute removed.
pub open spec fn strip_localized(app: AppModel, secs: Seq<SectionModel>) -> Seq<SectionModel> {
    secs.map_values(
        |s: SectionModel| SectionModel {
            name: s.name,
            attrs: keep_original(app, s.name, s.attrs),
        },
    )
}

proof fn lemma_keep_original_distributes(
    app: AppModel,
    section: Seq<char>,
    a: Seq<AttrModel>,
    b: Seq<AttrModel>,
)
    ensures
        keep_original(app, section, a + b) == keep_original(app, section, a) + keep_original(
            app,
            section,
            b,
        ),
    decreases b.len(),
{
    if b.len() == 0 {
        assert(a + b =~= a);
        assert(keep_original(app, section, a) + keep_original(app, section, b)
            =~= keep_original(app, section, a));
    } else {
        assert((a + b).drop_last() =~= a + b.drop_last());
        assert((a + b).last() == b.last());
        lemma_keep_original_distributes(app, section, a, b.drop_last());
        assert(keep_original(app, section, a + b) =~= keep_original(app, section, a)
            + keep_original(app, section, b));
    }
}

proof fn lemma_keep_loc_attrs_empty(
    app: AppModel,
    section: Seq<char>,
    key: Seq<char>,
    resolved: Seq<(Seq<char>, Seq<char>)>,
)
    requires
        field_for(app, section, key) is Some,
    ensures
        keep_original(app, section, loc_attrs(key, resolved)) == Seq::<AttrModel>::empty(),
    decreases resolved.len(),
{
    let loc = loc_attrs(key, resolved);
    if resolved.len() == 0 {
        assert(keep_original(app, section, loc) =~= Seq::<AttrModel>::empty());
    } else {
        lemma_keep_loc_attrs_empty(app, section, key, resolved.drop_last());
        assert(loc.last() == (AttrModel {
            key: key,
            param: Some(underscored(resolved.last().0)),
            values: seq![resolved.last().1],
        }));
        assert(is_appended_attr(app, section, loc.last()));
        assert(loc.drop_last() =~~= loc_attrs(key, resolved.drop_last()));
        assert(keep_original(app, section, loc) =~= Seq::<AttrModel>::empty());
    }
}

proof fn lemma_expand_attrs_strip(
    app: AppModel,
    reg: Seq<(Seq<char>, Map<Seq<char>, Seq<char>>)>,
    section: Seq<char>,
    attrs: Seq<AttrModel>,
)
    requires
        expand_attrs(app, reg, section, attrs) is Ok,
    ensures
        keep_original(app, section, expand_attrs(app, reg, section, attrs)->Ok_0) == attrs,
    decreases attrs.len(),
{
    if attrs.len() == 0 {
        assert(keep_original(app, section, expand_attrs(app, reg, section, attrs)->Ok_0)
            =~= attrs);
    } else {
        lemma_expand_attrs_strip(app, reg, section, attrs.drop_last());
        let pre = expand_attrs(app, reg, section, attrs.drop_last())->Ok_0;
        let adds = expand_attr(app, reg, section, attrs.last())->Ok_0;
        lemma_keep_original_distributes(app, section, pre, adds);
        assert(!is_appended_attr(app, section, attrs.last()));
        match field_for(app, section, attrs.last().key) {
            None => {
                assert(adds =~= seq![attrs.last()]);
                assert(seq![attrs.last()].drop_last() =~= Seq::<AttrModel>::empty());
                assert(keep_original(app, section, Seq::<AttrModel>::empty()) =~= Seq::<
                    AttrModel,
                >::empty());
                assert(keep_original(app, section, seq![attrs.last()]) =~= seq![
                    attrs.last(),
                ]);
            },
            Some(id) => {
                let loc = loc_attrs(attrs.last().key, resolve_spec(reg, id));
                assert(adds == seq![attrs.last()] + loc);
                lemma_keep_original_distributes(app, section, seq![attrs.last()], loc);
                lemma_keep_loc_attrs_empty(
                    app,
                    section,
                    attrs.last().key,
                    resolve_spec(reg, id),
                );
                assert(seq![attrs.last()].drop_last() =~= Seq::<AttrModel>::empty());
                assert(keep_original(app, section, Seq::<AttrModel>::empty()) =~= Seq::<
                    AttrModel,
                >::empty());
                assert(keep_original(app, section, seq![attrs.last()]) =~= seq![
                    attrs.last(),
                ]);
                assert(keep_original(app, section, adds) =~= seq![attrs.last()]);
            },
        }
        assert(keep_original(app, section, expand_attrs(app, reg, section, attrs)->Ok_0)
            =~= attrs.drop_last() + seq![attrs.last()]);
        assert(attrs.drop_last() + seq![attrs.last()] =~= attrs);
    }
}

/// Law: the expander's output, with every appended localized attribute line
/// removed, is the input template, section for section and attribute for
/// attribute — the original lines are re-emitted unchanged.
pub proof fn lemma_desktop_strip_restores_template(
    app: AppModel,
    reg: Seq<(Seq<char>, Map<Seq<char>, Seq<char>>)>,
    secs: Seq<SectionModel>,
)
    requires
        expand_sections(app, reg, secs) is Ok,
    ensures
        strip_localized(app, expand_sections(app, reg, secs)->Ok_0) == secs,
    decreases secs.len(),
{
    let out = expand_sections(app, reg, secs)->Ok_0;
    if secs.len() == 0 {
        assert(strip_localized(app, out) =~~= secs);
    } else {
        lemma_desktop_strip_restores_template(app, reg, secs.drop_last());
        lemma_expand_attrs_strip(app, reg, secs.last().name, secs.last().attrs);
        let pre = expand_sections(app, reg, secs.drop_last())->Ok_0;
        let attrs2 = expand_attrs(app, reg, secs.last().name, secs.last().attrs)->Ok_0;
        assert(out == pre + seq![SectionModel { name: secs.last().name, attrs: attrs2 }]);
        assert forall|x: int| 0 <= x < out.len() implies strip_localized(app, out)[x]
            == secs[x] by {
            if x < pre.len() {
                assert(strip_localized(app, pre)[x] == secs.drop_last()[x]);
            }
        }
        assert(strip_localized(app, out) =~~= secs);
    }
}

proof fn lemma_expand_attrs_err_localized(
    app: AppModel,
    reg: Seq<(Seq<char>, Map<Seq<char>, Seq<char>>)>,
    section: Seq<char>,
    attrs: Seq<AttrModel>,
)
    ensures
        expand_attrs(app, reg, section, attrs) matches Err(e) ==> e is LocalizedKey,
    decreases attrs.len(),
{
    if attrs.len() > 0 {
        lemma_expand_attrs_err_localized(app, reg, section, attrs.drop_last());
    }
}

proof fn lemma_expand_sections_err_localized(
    app: AppModel,
    reg: Seq<(Seq<char>, Map<Seq<char>, Seq<char>>)>,
    secs: Seq<SectionModel>,
)
    ensures
        expand_sections(app, reg, secs) matches Err(e) ==> e is LocalizedKey,
    decreases secs.len(),
{
    if secs.len() > 0 {
        lemma_expand_sections_err_localized(app, reg, secs.drop_last());
        lemma_expand_attrs_err_localized(app, reg, secs.last().name, secs.last().attrs);
    }
}

proof fn lemma_expand_attrs_ok_clean(
    app: AppModel,
    reg: Seq<(Seq<char>, Map<Seq<char>, Seq<char>>)>,
    section: Seq<char>,
    attrs: Seq<AttrModel>,
)
    requires
        expand_attrs(app, reg, section, attrs) is Ok,
    ensures
        forall|j: int| 0 <= j < attrs.len() ==> !is_appended_attr(app, section, #[trigger] attrs[j]),
    decreases attrs.len(),
{
    if attrs.len() > 0 {
        lemma_expand_attrs_ok_clean(app, reg, section, attrs.drop_last());
        assert forall|j: int| 0 <= j < attrs.len() implies !is_appended_attr(
            app,
            section,
            #[trigger] attrs[j],
        ) by {
            if j < attrs.len() - 1 {
                assert(attrs.drop_last()[j] == attrs[j]);
            }
        }
    }
}

/// Whether some section of `secs` holds an appended-shaped (localized)
/// attribute of a recognized populated field.
pub open spec fn has_localized_attr(app: AppModel, secs: Seq<SectionModel>) -> bool {
    exists|i: int, j: int|
        0 <= i < secs.len() && 0 <= j < secs[i].attrs.len() && is_appended_attr(
            app,
            secs[i].name,
            #[trigger] secs[i].attrs[j],
        )
}

/// Law: running the expander on a template that already holds a localized
/// variant of a recognized populated field — in particular on the
/// expander's own output once any language was appended — fails with the
/// double-localization error.
pub proof fn lemma_desktop_rerun_fails(
    app: AppModel,
    reg: Seq<(Seq<char>, Map<Seq<char>, Seq<char>>)>,
    secs: Seq<SectionModel>,
)
    requires
        has_localized_attr(app, secs),
    ensures
        expand_sections(app, reg, secs) matches Err(e) && e is LocalizedKey,
{
    lemma_expand_sections_err_localized(app, reg, secs);
    if expand_sections(app, reg, secs) is Ok {
        lemma_expand_sections_ok_clean(app, reg, secs);
        assert(false);
    }
}

proof fn lemma_expand_sections_ok_clean(
    app: AppModel,
    reg: Seq<(Seq<char>, Map<Seq<char>, Seq<char>>)>,
    secs: Seq<SectionModel>,
)
    requires
        expand_sections(app, reg, secs) is Ok,
    ensures
        !has_localized_attr(app, secs),
    decreases secs.len(),
{
    if secs.len() > 0 {
        lemma_expand_sections_ok_clean(app, reg, secs.drop_last());
        lemma_expand_attrs_ok_clean(app, reg, secs.last().name, secs.last().attrs);
        if has_localized_attr(app, secs) {
            let (i, j) = choose|i: int, j: int|
                0 <= i < secs.len() && 0 <= j < secs[i].attrs.len() && is_appended_attr(
                    app,
                    secs[i].name,
                    #[trigger] secs[i].attrs[j],
                );
            if i < secs.len() - 1 {
                assert(secs.drop_last()[i] == secs[i]);
                assert(has_localized_attr(app, secs.drop_last()));
            }
        }
    }
}

} // verus!
