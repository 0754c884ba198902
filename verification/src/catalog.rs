//! The catalog registry and the message resolver: one loaded translation
//! bundle per language, queried across all languages at once.

use vstd::prelude::*;
use vstd::string::*;
use crate::text::{seq_char_lt, lemma_char_lt_irrefl, lemma_char_lt_connected, lemma_char_lt_trans,
    underscored, pairs_view, str_lt, str_eq_str};
use crate::errors::{LocalizeError, ErrorModel};
use crate::entity::FluentString;

verus! {

#[verifier::external_type_specification]
#[verifier::external_body]
pub struct ExLanguageIdentifier(unic_langid::LanguageIdentifier);

#[verifier::external_type_specification]
#[verifier::external_body]
pub struct ExFluentResource(fluent::FluentResource);

#[verifier::external_type_specification]
#[verifier::external_body]
pub struct ExIntlLangMemoizer(intl_memoizer::IntlLangMemoizer);

#[verifier::external_type_specification]
#[verifier::external_body]
#[verifier::reject_recursive_types(R)]
#[verifier::reject_recursive_types(M)]
pub struct ExFluentBundle<R, M>(fluent::bundle::FluentBundle<R, M>);

/// What parsing a directory name as a language tag yields: the normalized
/// form of a well-formed tag, or nothing for an ill-formed name.
pub uninterp spec fn lang_parse(name: Seq<char>) -> Option<Seq<char>>;

/// The formatted messages a loaded bundle holds: each message identifier
/// that is present and carries a value pattern, mapped to the text that
/// formatting the pattern with no arguments yields.
pub uninterp spec fn bundle_messages(b: fluent::FluentBundle<fluent::FluentResource>) -> Map<
    Seq<char>,
    Seq<char>,
>;

/// The formatted messages that loading catalog source text for a language
/// yields; a function of the normalized language tag and the source alone.
pub uninterp spec fn catalog_messages(lang: Seq<char>, source: Seq<char>) -> Map<
    Seq<char>,
    Seq<char>,
>;

/// Relies on unic_langid's `LanguageIdentifier`: `FromStr` accepts exactly
/// the well-formed tags and normalizes subtag case, and `Display` writes the
/// normalized form; both are functions of the input string alone.
#[verifier::external_body]
fn parse_lang_tag(name: &str) -> (r: Option<String>)
    ensures
        r matches Some(t) ==> lang_parse(name@) == Some(t@),
        r is None ==> lang_parse(name@) is None,
{
    match name.parse::<unic_langid::LanguageIdentifier>() {
        Ok(id) => Some(id.to_string()),
        Err(_) => None,
    }
}

/// Whether `name` is a well-formed language tag, and its normalized form.
pub fn parse_language_tag(name: &str) -> (r: Option<String>)
    ensures
        r matches Some(t) ==> lang_parse(name@) == Some(t@),
        r is None ==> lang_parse(name@) is None,
{
    parse_lang_tag(name)
}

/// Relies on unic_langid's `LanguageIdentifier` (`FromStr`, `Display`) and on
/// fluent's `FluentResource::try_new` and `FluentBundle::{new, add_resource}`:
/// the identifier is parsed from `name`, so the loaded bundle — its plural
/// rules seeded from that same identifier — is a function of the arguments;
/// and since identifiers with equal normalized form are equal, the message
/// map is a function of the normalized tag and the source. `try_new` keeps
/// the partially parsed resource on recoverable syntax errors; those errors,
/// and `add_resource` conflicts, come back as diagnostic strings.
#[verifier::external_body]
fn load_catalog(name: &str, source: String) -> (r: Option<
    (String, fluent::FluentBundle<fluent::FluentResource>, Vec<String>),
>)
    ensures
        r matches Some(p) ==> lang_parse(name@) == Some(p.0@) && bundle_messages(p.1)
            == catalog_messages(p.0@, source@),
        r is None ==> lang_parse(name@) is None,
{
    let lang: unic_langid::LanguageIdentifier = match name.parse() { Ok(l) => l, Err(_) => return None };
    let norm = lang.to_string();
    let mut diags: Vec<String> = Vec::new();
    let res = match fluent::FluentResource::try_new(source) {
        Ok(r) => r,
        Err((r, errs)) => {
            diags.extend(errs.iter().map(|e| e.to_string()));
            r
        },
    };
    let mut b = fluent::FluentBundle::new(vec![lang]);
    let _ = b.add_resource(res).map_err(|errs| diags.extend(errs.iter().map(|e| e.to_string())));
    Some((norm, b, diags))
}

/// Relies on fluent's `FluentBundle::get_message`, `FluentMessage::value` and
/// `FluentBundle::format_pattern`: a message that is absent, or carries no
/// value pattern, yields nothing; otherwise formatting with no arguments
/// yields text that is a function of the bundle and the identifier alone,
/// kept even when formatting reports recoverable errors, which come back as
/// diagnostic strings.
#[verifier::external_body]
fn format_message(b: &fluent::FluentBundle<fluent::FluentResource>, id: &str) -> (r: Option<
    (String, Vec<String>),
>)
    ensures
        r matches Some(p) ==> bundle_messages(*b).contains_key(id@) && p.0@ == bundle_messages(
            *b,
        )[id@],
        r is None ==> !bundle_messages(*b).contains_key(id@),
{
    let msg = match b.get_message(id) {
        Some(m) => m,
        None => return None,
    };
    let pat = match msg.value() {
        Some(p) => p,
        None => return None,
    };
    let mut errs = Vec::new();
    let value = b.format_pattern(pat, None, &mut errs).into_owned();
    Some((value, errs.iter().map(|e| e.to_string()).collect()))
}

/// The name of the catalog file for a logical domain: the domain with its
/// hyphens replaced by underscores, with the fixed catalog extension.
pub fn catalog_file_name(domain: &str) -> (r: String)
    ensures
        r@ == underscored(domain@) + ".ftl"@,
{
    let mut r = crate::text::underscore_tag(domain);
    r.append(".ftl");
    r
}

/// View of registry entries: each language tag with its bundle's messages.
pub open spec fn entries_view(
    s: Seq<(String, fluent::FluentBundle<fluent::FluentResource>)>,
) -> Seq<(Seq<char>, Map<Seq<char>, Seq<char>>)> {
    s.map_values(
        |e: (String, fluent::FluentBundle<fluent::FluentResource>)| (e.0@, bundle_messages(e.1)),
    )
}

/// Tags strictly increase: each language appears once, in a fixed order.
pub open spec fn sorted_tags(s: Seq<(Seq<char>, Map<Seq<char>, Seq<char>>)>) -> bool {
    forall|i: int, j: int| 0 <= i < j < s.len() ==> seq_char_lt(s[i].0, s[j].0)
}

/// Whether some entry of `s` carries the tag `t`.
pub open spec fn has_tag(s: Seq<(Seq<char>, Map<Seq<char>, Seq<char>>)>, t: Seq<char>) -> bool {
    exists|i: int| 0 <= i < s.len() && s[i].0 == t
}

/// Insertion into a tag-ordered registry; an entry with an equal tag is
/// replaced.
pub open spec fn registry_insert(
    s: Seq<(Seq<char>, Map<Seq<char>, Seq<char>>)>,
    tag: Seq<char>,
    msgs: Map<Seq<char>, Seq<char>>,
) -> Seq<(Seq<char>, Map<Seq<char>, Seq<char>>)>
    decreases s.len(),
{
    if s.len() == 0 {
        seq![(tag, msgs)]
    } else if seq_char_lt(tag, s[0].0) {
        seq![(tag, msgs)] + s
    } else if tag == s[0].0 {
        seq![(tag, msgs)] + s.skip(1)
    } else {
        seq![s[0]] + registry_insert(s.skip(1), tag, msgs)
    }
}

/// Building a registry from (directory name, catalog source) pairs, in
/// order: the first ill-formed directory name aborts the build; otherwise
/// each catalog is loaded and registered under its normalized tag.
pub open spec fn registry_build(cats: Seq<(Seq<char>, Seq<char>)>) -> Result<
    Seq<(Seq<char>, Map<Seq<char>, Seq<char>>)>,
    Seq<char>,
>
    decreases cats.len(),
{
    if cats.len() == 0 {
        Ok(Seq::empty())
    } else {
        match registry_build(cats.drop_last()) {
            Err(e) => Err(e),
            Ok(r) => match lang_parse(cats.last().0) {
                None => Err(cats.last().0),
                Some(norm) => Ok(
                    registry_insert(r, norm, catalog_messages(norm, cats.last().1)),
                ),
            },
        }
    }
}

proof fn lemma_char_lt_asym(a: Seq<char>, b: Seq<char>)
    requires
        seq_char_lt(a, b),
    ensures
        !seq_char_lt(b, a),
        a != b,
{
    lemma_char_lt_irrefl(a);
    if seq_char_lt(b, a) {
        lemma_char_lt_trans(a, b, a);
    }
}

proof fn lemma_sorted_skip(s: Seq<(Seq<char>, Map<Seq<char>, Seq<char>>)>)
    requires
        sorted_tags(s),
        s.len() > 0,
    ensures
        sorted_tags(s.skip(1)),
{
    assert forall|i: int, j: int| 0 <= i < j < s.skip(1).len() implies seq_char_lt(
        s.skip(1)[i].0,
        s.skip(1)[j].0,
    ) by {
        assert(s.skip(1)[i] == s[i + 1]);
        assert(s.skip(1)[j] == s[j + 1]);
    }
}

proof fn lemma_registry_insert_props(
    s: Seq<(Seq<char>, Map<Seq<char>, Seq<char>>)>,
    tag: Seq<char>,
    msgs: Map<Seq<char>, Seq<char>>,
)
    requires
        sorted_tags(s),
    ensures
        sorted_tags(registry_insert(s, tag, msgs)),
        has_tag(registry_insert(s, tag, msgs), tag),
        forall|t: Seq<char>| #[trigger]
            has_tag(registry_insert(s, tag, msgs), t) ==> t == tag || has_tag(s, t),
        forall|t: Seq<char>| #[trigger]
            has_tag(s, t) ==> has_tag(registry_insert(s, tag, msgs), t),
    decreases s.len(),
{
    let r = registry_insert(s, tag, msgs);
    if s.len() == 0 {
        assert(r[0].0 == tag);
        assert forall|t: Seq<char>| #[trigger] has_tag(r, t) implies t == tag || has_tag(
            s,
            t,
        ) by {
            let i = choose|i: int| 0 <= i < r.len() && r[i].0 == t;
            assert(i == 0);
        }
    } else if seq_char_lt(tag, s[0].0) {
        assert(r[0].0 == tag);
        assert forall|i: int, j: int| 0 <= i < j < r.len() implies seq_char_lt(
            r[i].0,
            r[j].0,
        ) by {
            if i == 0 {
                assert(r[j] == s[j - 1]);
                if j > 1 {
                    lemma_char_lt_trans(tag, s[0].0, s[j - 1].0);
                }
            } else {
                assert(r[i] == s[i - 1]);
                assert(r[j] == s[j - 1]);
            }
        }
        assert forall|t: Seq<char>| #[trigger] has_tag(r, t) implies t == tag || has_tag(
            s,
            t,
        ) by {
            let i = choose|i: int| 0 <= i < r.len() && r[i].0 == t;
            if i > 0 {
                assert(s[i - 1].0 == t);
            }
        }
        assert forall|t: Seq<char>| #[trigger] has_tag(s, t) implies has_tag(r, t) by {
            let i = choose|i: int| 0 <= i < s.len() && s[i].0 == t;
            assert(r[i + 1].0 == t);
        }
    } else if tag == s[0].0 {
        assert(r[0].0 == tag);
        assert forall|i: int, j: int| 0 <= i < j < r.len() implies seq_char_lt(
            r[i].0,
            r[j].0,
        ) by {
            if i == 0 {
                assert(r[j] == s.skip(1)[j - 1]);
                assert(s.skip(1)[j - 1] == s[j]);
            } else {
                assert(r[i] == s[i]);
                assert(r[j] == s[j]);
            }
        }
        assert forall|t: Seq<char>| #[trigger] has_tag(r, t) implies t == tag || has_tag(
            s,
            t,
        ) by {
            let i = choose|i: int| 0 <= i < r.len() && r[i].0 == t;
            if i > 0 {
                assert(r[i] == s[i]);
                assert(s[i].0 == t);
            }
        }
        assert forall|t: Seq<char>| #[trigger] has_tag(s, t) implies has_tag(r, t) by {
            let i = choose|i: int| 0 <= i < s.len() && s[i].0 == t;
            if i > 0 {
                assert(r[i].0 == t);
            } else {
                assert(r[0].0 == t);
            }
        }
    } else {
        lemma_char_lt_irrefl(tag);
        lemma_char_lt_connected(tag, s[0].0);
        assert(seq_char_lt(s[0].0, tag));
        lemma_sorted_skip(s);
        lemma_registry_insert_props(s.skip(1), tag, msgs);
        let rr = registry_insert(s.skip(1), tag, msgs);
        assert(r == seq![s[0]] + rr);
        assert(has_tag(r, tag)) by {
            assert(has_tag(rr, tag));
            let k = choose|k: int| 0 <= k < rr.len() && rr[k].0 == tag;
            assert(r[k + 1].0 == tag);
        }
        assert forall|i: int, j: int| 0 <= i < j < r.len() implies seq_char_lt(
            r[i].0,
            r[j].0,
        ) by {
            if i == 0 {
                assert(r[j] == rr[j - 1]);
                assert(rr[j - 1].0 == rr[j - 1].0 && 0 <= j - 1 < rr.len());
                assert(has_tag(rr, rr[j - 1].0));
                if rr[j - 1].0 == tag {
                    assert(seq_char_lt(s[0].0, tag));
                } else {
                    assert(has_tag(s.skip(1), rr[j - 1].0));
                    let k = choose|k: int|
                        0 <= k < s.skip(1).len() && s.skip(1)[k].0 == rr[j - 1].0;
                    assert(s.skip(1)[k] == s[k + 1]);
                    assert(seq_char_lt(s[0].0, s[k + 1].0));
                }
            } else {
                assert(r[i] == rr[i - 1]);
                assert(r[j] == rr[j - 1]);
            }
        }
        assert forall|t: Seq<char>| #[trigger] has_tag(r, t) implies t == tag || has_tag(
            s,
            t,
        ) by {
            let i = choose|i: int| 0 <= i < r.len() && r[i].0 == t;
            if i == 0 {
                assert(s[0].0 == t);
            } else {
                assert(rr[i - 1].0 == t);
                assert(has_tag(rr, t));
                if t != tag {
                    assert(has_tag(s.skip(1), t));
                    let k = choose|k: int| 0 <= k < s.skip(1).len() && s.skip(1)[k].0 == t;
                    assert(s[k + 1].0 == t);
                }
            }
        }
        assert forall|t: Seq<char>| #[trigger] has_tag(s, t) implies has_tag(r, t) by {
            let i = choose|i: int| 0 <= i < s.len() && s[i].0 == t;
            if i == 0 {
                assert(r[0].0 == t);
            } else {
                assert(s.skip(1)[i - 1].0 == t);
                assert(has_tag(s.skip(1), t));
                assert(has_tag(rr, t));
                let k = choose|k: int| 0 <= k < rr.len() && rr[k].0 == t;
                assert(r[k + 1].0 == t);
            }
        }
    }
}


proof fn lemma_registry_build_err_mono(cats: Seq<(Seq<char>, Seq<char>)>, k: int)
    requires
        0 <= k <= cats.len(),
        registry_build(cats.take(k)) is Err,
    ensures
        registry_build(cats) == registry_build(cats.take(k)),
    decreases cats.len(),
{
    if cats.len() > k {
        assert(cats.drop_last().take(k) =~= cats.take(k));
        lemma_registry_build_err_mono(cats.drop_last(), k);
    } else {
        assert(cats.take(k) =~= cats);
    }
}

/// An immutable registry of one loaded translation bundle per discovered
/// language, iterated in language-tag order.
pub struct Context {
    entries: Vec<(String, fluent::FluentBundle<fluent::FluentResource>)>,
}

impl View for Context {
    type V = Seq<(Seq<char>, Map<Seq<char>, Seq<char>>)>;

    closed spec fn view(&self) -> Seq<(Seq<char>, Map<Seq<char>, Seq<char>>)> {
        entries_view(self.entries@)
    }
}

fn insert_entry(
    entries: &mut Vec<(String, fluent::FluentBundle<fluent::FluentResource>)>,
    tag: String,
    bundle: fluent::FluentBundle<fluent::FluentResource>,
)
    requires
        sorted_tags(entries_view(old(entries)@)),
    ensures
        entries_view(final(entries)@) == registry_insert(
            entries_view(old(entries)@),
            tag@,
            bundle_messages(bundle),
        ),
        sorted_tags(entries_view(final(entries)@)),
{
    let ghost s0 = entries_view(entries@);
    let ghost m = bundle_messages(bundle);
    proof {
        lemma_registry_insert_props(s0, tag@, m);
        assert(s0.skip(0) =~= s0);
    }
    let mut i: usize = 0;
    loop
        invariant
            i <= entries@.len(),
            entries_view(entries@) == s0,
            entries_view(old(entries)@) == s0,
            sorted_tags(s0),
            sorted_tags(registry_insert(s0, tag@, m)),
            bundle_messages(bundle) == m,
            forall|k: int| 0 <= k < i ==> seq_char_lt(s0[k].0, tag@),
            registry_insert(s0, tag@, m) == s0.take(i as int) + registry_insert(
                s0.skip(i as int),
                tag@,
                m,
            ),
        decreases entries@.len() - i,
    {
        let ghost si = s0.skip(i as int);
        if i == entries.len() {
            entries.push((tag, bundle));
            proof {
                assert(si =~= Seq::<(Seq<char>, Map<Seq<char>, Seq<char>>)>::empty());
                assert(entries_view(entries@) =~= s0.take(i as int) + seq![(tag@, m)]);
            }
            return ;
        }
        let cur_lt = str_lt(entries[i].0.as_str(), tag.as_str());
        proof {
            assert(si[0] == s0[i as int]);
            assert(s0[i as int] == (entries@[i as int].0@, bundle_messages(
                entries@[i as int].1,
            )));
        }
        if cur_lt {
            proof {
                lemma_char_lt_asym(s0[i as int].0, tag@);
                assert(si.skip(1) =~= s0.skip(i + 1));
                assert(s0.take(i as int) + (seq![si[0]] + registry_insert(
                    s0.skip(i + 1),
                    tag@,
                    m,
                )) =~= s0.take(i + 1) + registry_insert(s0.skip(i + 1), tag@, m));
            }
            i = i + 1;
        } else {
            let equal = str_eq_str(entries[i].0.as_str(), tag.as_str());
            if equal {
                proof {
                    lemma_char_lt_irrefl(tag@);
                    assert(si.skip(1) =~= s0.skip(i + 1));
                }
                entries.remove(i);
                entries.insert(i, (tag, bundle));
                proof {
                    assert(entries_view(entries@) =~= s0.take(i as int) + (seq![(tag@, m)]
                        + s0.skip(i + 1)));
                }
            } else {
                proof {
                    assert(tag@ != s0[i as int].0);
                    lemma_char_lt_connected(tag@, s0[i as int].0);
                    assert(seq_char_lt(tag@, s0[i as int].0));
                }
                entries.insert(i, (tag, bundle));
                proof {
                    assert(entries_view(entries@) =~= s0.take(i as int) + (seq![(tag@, m)]
                        + s0.skip(i as int)));
                }
            }
            return ;
        }
    }
}

impl Context {
    /// Tags of the registry strictly increase.
    pub open spec fn wf(&self) -> bool {
        sorted_tags(self@)
    }

    /// Builds the registry from (directory name, catalog source text) pairs.
    /// Every name must be a well-formed language tag: the first that is not
    /// aborts the whole build. Catalog content never aborts it: a source
    /// with recoverable syntax errors is still registered with whatever the
    /// catalog engine could parse, and the errors come back as diagnostic
    /// strings for the caller's error channel. A later pair whose name
    /// normalizes to the tag of an earlier one replaces it.
    pub fn new(catalogs: Vec<(String, String)>) -> (r: Result<
        (Context, Vec<String>),
        LocalizeError,
    >)
        ensures
            r matches Ok(p) ==> p.0.wf() && registry_build(pairs_view(catalogs@)) == Ok::<
                _,
                Seq<char>,
            >(p.0@),
            r matches Err(e) ==> registry_build(pairs_view(catalogs@)) matches Err(n) && e@
                == ErrorModel::InvalidLanguageTag(n),
    {
        let ghost cats = pairs_view(catalogs@);
        let mut entries: Vec<(String, fluent::FluentBundle<fluent::FluentResource>)> = Vec::new();
        let mut diagnostics: Vec<String> = Vec::new();
        let mut idx: usize = 0;
        proof {
            assert(pairs_view(catalogs@.take(0)) =~= cats.take(0));
            assert(cats.take(0) =~= Seq::<(Seq<char>, Seq<char>)>::empty());
            assert(entries_view(entries@) =~= Seq::<
                (Seq<char>, Map<Seq<char>, Seq<char>>),
            >::empty());
        }
        while idx < catalogs.len()
            invariant
                idx <= catalogs@.len(),
                cats == pairs_view(catalogs@),
                cats.len() == catalogs@.len(),
                sorted_tags(entries_view(entries@)),
                registry_build(cats.take(idx as int)) == Ok::<_, Seq<char>>(
                    entries_view(entries@),
                ),
            decreases catalogs@.len() - idx,
        {
            proof {
                assert(cats.take(idx + 1).drop_last() =~= cats.take(idx as int));
                assert(cats.take(idx + 1).last() == (
                    catalogs@[idx as int].0@,
                    catalogs@[idx as int].1@,
                ));
            }
            let name = catalogs[idx].0.clone();
            let source = catalogs[idx].1.clone();
            match load_catalog(name.as_str(), source) {
                None => {
                    proof {
                        assert(registry_build(cats.take(idx + 1)) is Err);
                        lemma_registry_build_err_mono(cats, idx + 1);
                        assert(cats.take(cats.len() as int) =~= cats);
                    }
                    return Err(LocalizeError::InvalidLanguageTag { name });
                },
                Some((norm, bundle, mut diags)) => {
                    diagnostics.append(&mut diags);
                    insert_entry(&mut entries, norm, bundle);
                },
            }
            idx = idx + 1;
        }
        proof {
            assert(cats.take(idx as int) =~= cats);
        }
        Ok((Context { entries }, diagnostics))
    }

    /// The number of languages in the registry.
    pub fn len(&self) -> (n: usize)
        ensures
            n == self@.len(),
    {
        self.entries.len()
    }

    /// The language tags of the registry, in registry order.
    pub fn languages(&self) -> (r: Vec<String>)
        ensures
            r@.map_values(|t: String| t@) == self@.map_values(
                |e: (Seq<char>, Map<Seq<char>, Seq<char>>)| e.0,
            ),
    {
        let mut r: Vec<String> = Vec::new();
        let mut i: usize = 0;
        while i < self.entries.len()
            invariant
                i <= self.entries@.len(),
                r@.len() == i,
                forall|k: int| 0 <= k < i ==> (#[trigger] r@[k])@ == self@[k].0,
            decreases self.entries@.len() - i,
        {
            r.push(self.entries[i].0.clone());
            proof {
                assert(self@[i as int].0 == self.entries@[i as int].0@);
            }
            i = i + 1;
        }
        proof {
            assert(r@.map_values(|t: String| t@) =~= self@.map_values(
                |e: (Seq<char>, Map<Seq<char>, Seq<char>>)| e.0,
            ));
        }
        r
    }
}

/// Resolution of one message across a registry: every language whose bundle
/// holds the message contributes its formatted text, in registry order;
/// every other language is skipped.
pub open spec fn resolve_spec(
    reg: Seq<(Seq<char>, Map<Seq<char>, Seq<char>>)>,
    id: Seq<char>,
) -> Seq<(Seq<char>, Seq<char>)>
    decreases reg.len(),
{
    if reg.len() == 0 {
        Seq::empty()
    } else if reg[0].1.contains_key(id) {
        seq![(reg[0].0, reg[0].1[id])] + resolve_spec(reg.skip(1), id)
    } else {
        resolve_spec(reg.skip(1), id)
    }
}

impl FluentString {
    /// Resolves this message for every language of the registry: languages
    /// whose catalog lacks the message, or whose message carries no value
    /// pattern, are skipped; the rest map to their formatted text, in
    /// registry order. Recoverable formatting errors do not drop an entry:
    /// the degraded text is kept and the errors come back as diagnostic
    /// strings for the caller's error channel.
    pub fn get(&self, ctx: &Context) -> (r: (Vec<(String, String)>, Vec<String>))
        ensures
            pairs_view(r.0@) == resolve_spec(ctx@, self@),
    {
        let mut diagnostics: Vec<String> = Vec::new();
        let mut out: Vec<(String, String)> = Vec::new();
        let mut i: usize = 0;
        proof {
            assert(ctx@.skip(0) =~= ctx@);
            assert(pairs_view(out@) + resolve_spec(ctx@, self@) =~= resolve_spec(ctx@, self@));
        }
        while i < ctx.entries.len()
            invariant
                i <= ctx.entries@.len(),
                ctx@.len() == ctx.entries@.len(),
                resolve_spec(ctx@, self@) == pairs_view(out@) + resolve_spec(
                    ctx@.skip(i as int),
                    self@,
                ),
            decreases ctx.entries@.len() - i,
        {
            let ghost prev = pairs_view(out@);
            proof {
                assert(ctx@.skip(i as int)[0] == ctx@[i as int]);
                assert(ctx@.skip(i as int).skip(1) =~= ctx@.skip(i + 1));
            }
            match format_message(&ctx.entries[i].1, self.0) {
                Some((v, mut diags)) => {
                    diagnostics.append(&mut diags);
                    let t = ctx.entries[i].0.clone();
                    out.push((t, v));
                    proof {
                        assert(pairs_view(out@) =~= prev + seq![
                            (ctx@[i as int].0, ctx@[i as int].1[self@]),
                        ]);
                        assert(prev + (seq![(ctx@[i as int].0, ctx@[i as int].1[self@])]
                            + resolve_spec(ctx@.skip(i + 1), self@)) =~= (prev + seq![
                            (ctx@[i as int].0, ctx@[i as int].1[self@]),
                        ]) + resolve_spec(ctx@.skip(i + 1), self@));
                    }
                },
                None => {},
            }
            i = i + 1;
        }
        proof {
            assert(ctx@.skip(ctx@.len() as int) =~= Seq::<
                (Seq<char>, Map<Seq<char>, Seq<char>>),
            >::empty());
            assert(pairs_view(out@) + Seq::<(Seq<char>, Seq<char>)>::empty() =~= pairs_view(
                out@,
            ));
        }
        (out, diagnostics)
    }
}

/// Law: a registry built successfully holds exactly one entry per catalog
/// pair whose directory name is a well-formed language tag — its normalized
/// tag — whatever the catalog's content; and its tags strictly increase, so
/// no language appears twice.
pub proof fn lemma_registry_languages(cats: Seq<(Seq<char>, Seq<char>)>)
    requires
        registry_build(cats) is Ok,
    ensures
        sorted_tags(registry_build(cats)->Ok_0),
        forall|t: Seq<char>| #[trigger]
            has_tag(registry_build(cats)->Ok_0, t) ==> exists|i: int|
                0 <= i < cats.len() && lang_parse(#[trigger] cats[i].0) == Some(t),
        forall|i: int|
            0 <= i < cats.len() && (#[trigger] lang_parse(cats[i].0)) is Some ==> has_tag(
                registry_build(cats)->Ok_0,
                lang_parse(cats[i].0)->Some_0,
            ),
    decreases cats.len(),
{
    let r = registry_build(cats)->Ok_0;
    if cats.len() == 0 {
        assert forall|t: Seq<char>| #[trigger] has_tag(r, t) implies exists|i: int|
            0 <= i < cats.len() && lang_parse(#[trigger] cats[i].0) == Some(t) by {
            let i = choose|i: int| 0 <= i < r.len() && r[i].0 == t;
            assert(false);
        }
    } else {
        let prev = registry_build(cats.drop_last())->Ok_0;
        lemma_registry_languages(cats.drop_last());
        let norm = lang_parse(cats.last().0)->Some_0;
        lemma_registry_insert_props(prev, norm, catalog_messages(norm, cats.last().1));
        assert forall|t: Seq<char>| #[trigger] has_tag(r, t) implies exists|i: int|
            0 <= i < cats.len() && lang_parse(#[trigger] cats[i].0) == Some(t) by {
            if t == norm {
                assert(lang_parse(cats[cats.len() - 1].0) == Some(t));
            } else {
                assert(has_tag(prev, t));
                let i = choose|i: int|
                    0 <= i < cats.drop_last().len() && lang_parse(
                        #[trigger] cats.drop_last()[i].0,
                    ) == Some(t);
                assert(cats.drop_last()[i] == cats[i]);
                assert(lang_parse(cats[i].0) == Some(t));
            }
        }
        assert forall|i: int|
            0 <= i < cats.len() && (#[trigger] lang_parse(cats[i].0)) is Some implies has_tag(
            r,
            lang_parse(cats[i].0)->Some_0,
        ) by {
            if i == cats.len() - 1 {
                assert(has_tag(r, norm));
            } else {
                assert(cats.drop_last()[i] == cats[i]);
                assert(lang_parse(cats.drop_last()[i].0) is Some);
                assert(has_tag(prev, lang_parse(cats.drop_last()[i].0)->Some_0));
                assert(has_tag(r, lang_parse(cats[i].0)->Some_0));
            }
        }
    }
}

/// Whether registry `reg` holds message `id` for the language of pair `p`,
/// formatted as `p`'s text.
pub open spec fn has_msg(
    reg: Seq<(Seq<char>, Map<Seq<char>, Seq<char>>)>,
    id: Seq<char>,
    p: (Seq<char>, Seq<char>),
) -> bool {
    exists|j: int|
        0 <= j < reg.len() && reg[j].0 == p.0 && (#[trigger] reg[j].1).contains_key(id)
            && reg[j].1[id] == p.1
}

/// Law: the resolver never returns an entry for a language whose catalog
/// lacks the requested message — every returned pair names a registry
/// language whose bundle holds the message, with its formatted text.
pub proof fn lemma_resolver_skips_missing(
    reg: Seq<(Seq<char>, Map<Seq<char>, Seq<char>>)>,
    id: Seq<char>,
)
    ensures
        forall|k: int|
            0 <= k < resolve_spec(reg, id).len() ==> has_msg(
                reg,
                id,
                #[trigger] resolve_spec(reg, id)[k],
            ),
    decreases reg.len(),
{
    if reg.len() > 0 {
        lemma_resolver_skips_missing(reg.skip(1), id);
        let r = resolve_spec(reg, id);
        let rs = resolve_spec(reg.skip(1), id);
        assert forall|k: int| 0 <= k < r.len() implies has_msg(reg, id, r[k]) by {
            if reg[0].1.contains_key(id) && k == 0 {
                assert(reg[0].0 == r[0].0 && reg[0].1.contains_key(id)
                    && reg[0].1[id] == r[0].1);
            } else {
                let kk = if reg[0].1.contains_key(id) { k - 1 } else { k };
                assert(r[k] == rs[kk]);
                assert(has_msg(reg.skip(1), id, rs[kk]));
                let j = choose|j: int|
                    0 <= j < reg.skip(1).len() && reg.skip(1)[j].0 == rs[kk].0 && (
                    #[trigger] reg.skip(1)[j].1).contains_key(id) && reg.skip(1)[j].1[id]
                        == rs[kk].1;
                assert(reg.skip(1)[j] == reg[j + 1]);
                assert(reg[j + 1].0 == r[k].0 && reg[j + 1].1.contains_key(id) && reg[j
                    + 1].1[id] == r[k].1);
            }
        }
    }
}

/// Law: with a well-formed registry the resolver's result follows language
/// order — its tags strictly increase, so the output order is deterministic.
pub proof fn lemma_resolver_ordered(
    reg: Seq<(Seq<char>, Map<Seq<char>, Seq<char>>)>,
    id: Seq<char>,
)
    requires
        sorted_tags(reg),
    ensures
        forall|a: int, b: int|
            0 <= a < b < resolve_spec(reg, id).len() ==> seq_char_lt(
                #[trigger] resolve_spec(reg, id)[a].0,
                #[trigger] resolve_spec(reg, id)[b].0,
            ),
    decreases reg.len(),
{
    if reg.len() > 0 {
        lemma_sorted_skip(reg);
        lemma_resolver_ordered(reg.skip(1), id);
        lemma_resolver_skips_missing(reg.skip(1), id);
        let r = resolve_spec(reg, id);
        let rs = resolve_spec(reg.skip(1), id);
        assert forall|a: int, b: int| 0 <= a < b < r.len() implies seq_char_lt(
            r[a].0,
            r[b].0,
        ) by {
            if reg[0].1.contains_key(id) {
                if a == 0 {
                    assert(r[b] == rs[b - 1]);
                    assert(has_msg(reg.skip(1), id, rs[b - 1]));
                    let j = choose|j: int|
                        0 <= j < reg.skip(1).len() && reg.skip(1)[j].0 == rs[b - 1].0 && (
                        #[trigger] reg.skip(1)[j].1).contains_key(id) && reg.skip(1)[j].1[id]
                            == rs[b - 1].1;
                    assert(reg.skip(1)[j] == reg[j + 1]);
                    assert(seq_char_lt(reg[0].0, reg[j + 1].0));
                } else {
                    assert(r[a] == rs[a - 1]);
                    assert(r[b] == rs[b - 1]);
                }
            } else {
                assert(r[a] == rs[a]);
                assert(r[b] == rs[b]);
            }
        }
    }
}

} // verus!
