use vstd::prelude::*;

verus! {

/// A token of a dependency-parsed sentence: its form, lemma, part-of-speech
/// tag, morphological feature string, and its head (1-based, 0 for the root)
/// with the relation to it, in the regular and in the projective analysis.
pub struct Token {
    pub form: String,
    pub lemma: Option<String>,
    pub pos: Option<String>,
    pub features: Option<String>,
    pub head: Option<usize>,
    pub head_rel: Option<String>,
    pub p_head: Option<usize>,
    pub p_head_rel: Option<String>,
}

/// The characters of an optional string.
pub open spec fn opt_view(s: Option<String>) -> Option<Seq<char>> {
    match s {
        Some(v) => Some(v@),
        None => None,
    }
}

/// A copy of an optional string.
pub fn clone_opt(s: &Option<String>) -> (r: Option<String>)
    ensures
        opt_view(r) == opt_view(*s),
{
    match s {
        Some(v) => Some(v.clone()),
        None => None,
    }
}

impl Token {
    /// The head of the token in the chosen analysis.
    pub open spec fn head_in(&self, projective: bool) -> Option<usize> {
        if projective {
            self.p_head
        } else {
            self.head
        }
    }

    /// The relation to the head in the chosen analysis.
    pub open spec fn rel_in(&self, projective: bool) -> Option<Seq<char>> {
        if projective {
            opt_view(self.p_head_rel)
        } else {
            opt_view(self.head_rel)
        }
    }

    /// The value of the named feature of the token, as the feature string
    /// gives it.
    pub open spec fn feature(&self, name: Seq<char>) -> Option<Seq<char>> {
        match self.features {
            Some(f) => feature_value_of(f@, name),
            None => None,
        }
    }
}

/// The value that a feature string (`key:value` pairs separated by `|`)
/// gives to a feature name; `None` where the name is absent or has no value.
pub uninterp spec fn feature_value_of(features: Seq<char>, name: Seq<char>) -> Option<Seq<char>>;

/// Relies on conllx's `Features::as_map`, which reads the feature string as
/// a mapping from names to optional values; this looks `name` up in it.
#[verifier::external_body]
fn lookup_feature(features: &str, name: &str) -> (r: Option<String>)
    ensures
        opt_view(r) == feature_value_of(features@, name@),
{
    conllx::Features::from_string(features).as_map().get(name).cloned().and_then(|v| v)
}

/// The value of the feature `name` of the token, if the token has features
/// and the feature has a value.
pub fn feature_value(token: &Token, name: &str) -> (r: Option<String>)
    ensures
        opt_view(r) == token.feature(name@),
{
    match &token.features {
        Some(f) => lookup_feature(f.as_str(), name),
        None => None,
    }
}

/// The lemma of the token where `lemma` is set, else its form.
pub fn extract_form(token: &Token, lemma: bool) -> (r: Option<&String>)
    ensures
        lemma ==> r == match token.lemma {
            Some(l) => Some(&l),
            None => None::<&String>,
        },
        !lemma ==> r == Some(&token.form),
{
    if lemma {
        match &token.lemma {
            Some(l) => Some(l),
            None => None,
        }
    } else {
        Some(&token.form)
    }
}

} // verus!
