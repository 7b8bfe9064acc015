//! Validation rules for text inputs.
//!
//! A rule checks the text of an input field and either accepts it or gives
//! the message to show. Bounds on numbers are of the type `N` chosen by the
//! caller, who also reads the text as a number and compares it with such a
//! bound. Such rules give a numeric verdict.
use vstd::prelude::*;
use crate::data_source::{digits, push_digits};
use crate::text_util::{chars_to_string, str_to_chars};

verus! {

/// A validation rule.
#[derive(Debug)]
pub enum ValidationRule<N> {
    /// The text must not be empty.
    Required,
    /// The text must be at least this many bytes long.
    MinLength(usize),
    /// The text must be at most this many bytes long.
    MaxLength(usize),
    /// The text must be a number at least this bound.
    Min(N),
    /// The text must be a number at most this bound.
    Max(N),
    /// The text must match this regular expression.
    Pattern(String),
    /// The text must look like an e-mail address.
    Email,
}

/// What a rule says of a text.
#[derive(Debug, PartialEq, Eq)]
pub enum Verdict {
    /// The text passes.
    Valid,
    /// The text fails, with the message to show.
    Invalid(String),
    /// The text must be read as a number and compared with the rule's bound.
    Numeric,
}

pub ghost enum VerdictView {
    Valid,
    Invalid(Seq<char>),
    Numeric,
}

impl View for Verdict {
    type V = VerdictView;

    open spec fn view(&self) -> VerdictView {
        match self {
            Verdict::Valid => VerdictView::Valid,
            Verdict::Invalid(m) => VerdictView::Invalid(m@),
            Verdict::Numeric => VerdictView::Numeric,
        }
    }
}

/// Whether `pattern` compiles as a regular expression (`None` if not) and,
/// if it does, whether it matches somewhere in `text`.
pub uninterp spec fn regex_outcome(pattern: Seq<char>, text: Seq<char>) -> Option<bool>;

/// Compiles `pattern` with `regex::Regex::new` and, where that succeeds,
/// tests `text` with `Regex::is_match`. The contract names the outcome: a
/// function of the two strings alone; what it is for given strings is the
/// regex crate's and is not stated here.
#[verifier::external_body]
fn regex_check(pattern: &str, text: &str) -> (r: Option<bool>)
    ensures
        r == regex_outcome(pattern@, text@),
{
    match regex::Regex::new(pattern) {
        Ok(re) => Some(re.is_match(text)),
        Err(_) => None,
    }
}

/// The pattern of the e-mail rule.
pub open spec fn email_pattern() -> Seq<char> {
    "^[\\w-\\.]+@([\\w-]+\\.)+[\\w-]{2,4}$"@
}

/// The number of UTF-8 bytes of a text, which is what length limits count.
pub open spec fn text_bytes(text: Seq<char>) -> nat {
    vstd::utf8::encode_utf8(text).len()
}

/// What `rule` says of `text`, leaving number bounds to the caller: an empty
/// text fails only the required rule and passes every other.
pub open spec fn rule_verdict<N>(rule: ValidationRule<N>, text: Seq<char>) -> VerdictView {
    if text.len() == 0 {
        match rule {
            ValidationRule::Required => VerdictView::Invalid("This field is required"@),
            _ => VerdictView::Valid,
        }
    } else {
        match rule {
            ValidationRule::Required => VerdictView::Valid,
            ValidationRule::MinLength(n) => if text_bytes(text) < n {
                VerdictView::Invalid(
                    "Must be at least "@ + digits(n as nat) + " characters"@,
                )
            } else {
                VerdictView::Valid
            },
            ValidationRule::MaxLength(n) => if text_bytes(text) > n {
                VerdictView::Invalid(
                    "Must be no more than "@ + digits(n as nat) + " characters"@,
                )
            } else {
                VerdictView::Valid
            },
            ValidationRule::Min(_) => VerdictView::Numeric,
            ValidationRule::Max(_) => VerdictView::Numeric,
            ValidationRule::Pattern(p) => match regex_outcome(p@, text) {
                Some(true) => VerdictView::Valid,
                Some(false) => VerdictView::Invalid("Invalid format"@),
                None => VerdictView::Invalid("Invalid pattern configuration"@),
            },
            ValidationRule::Email => match regex_outcome(email_pattern(), text) {
                Some(true) => VerdictView::Valid,
                Some(false) => VerdictView::Invalid("Invalid email address"@),
                None => VerdictView::Invalid("Regex error"@),
            },
        }
    }
}

/// A text has no bytes exactly when it has no characters.
proof fn lemma_no_bytes_iff_empty(t: Seq<char>)
    ensures
        (text_bytes(t) == 0) == (t.len() == 0),
{
    if t.len() > 0 {
        assert(vstd::utf8::encode_scalar(t[0] as u32).len() > 0);
    }
}

/// A message made of `head`, the decimal digits of `n`, and `tail`.
fn message_with_count(head: &str, n: usize, tail: &str) -> (s: String)
    ensures
        s@ == head@ + digits(n as nat) + tail@,
{
    let mut v = str_to_chars(head);
    push_digits(n as u64, &mut v);
    let mut w = str_to_chars(tail);
    v.append(&mut w);
    chars_to_string(&v)
}

impl<N> ValidationRule<N> {
    /// What this rule says of `value`.
    pub fn validate(&self, value: &str) -> (v: Verdict)
        ensures
            v@ == rule_verdict(*self, value@),
    {
        let bytes = value.as_bytes().len();
        proof {
            lemma_no_bytes_iff_empty(value@);
        }
        if bytes == 0 {
            return match self {
                ValidationRule::Required => Verdict::Invalid("This field is required".to_string()),
                _ => Verdict::Valid,
            };
        }
        match self {
            ValidationRule::Required => Verdict::Valid,
            ValidationRule::MinLength(n) => {
                if bytes < *n {
                    Verdict::Invalid(message_with_count("Must be at least ", *n, " characters"))
                } else {
                    Verdict::Valid
                }
            },
            ValidationRule::MaxLength(n) => {
                if bytes > *n {
                    Verdict::Invalid(message_with_count("Must be no more than ", *n, " characters"))
                } else {
                    Verdict::Valid
                }
            },
            ValidationRule::Min(_) => Verdict::Numeric,
            ValidationRule::Max(_) => Verdict::Numeric,
            ValidationRule::Pattern(p) => match regex_check(p.as_str(), value) {
                Some(true) => Verdict::Valid,
                Some(false) => Verdict::Invalid("Invalid format".to_string()),
                None => Verdict::Invalid("Invalid pattern configuration".to_string()),
            },
            ValidationRule::Email => {
                let pattern = "^[\\w-\\.]+@([\\w-]+\\.)+[\\w-]{2,4}$";
                match regex_check(pattern, value) {
                    Some(true) => Verdict::Valid,
                    Some(false) => Verdict::Invalid("Invalid email address".to_string()),
                    None => Verdict::Invalid("Regex error".to_string()),
                }
            },
        }
    }
}

/// What each of `rules` says of `value`, in order.
pub fn validate_all<N>(rules: &Vec<ValidationRule<N>>, value: &str) -> (v: Vec<Verdict>)
    ensures
        v@.len() == rules@.len(),
        forall|i: int| 0 <= i < rules@.len() ==> #[trigger] v@[i]@ == rule_verdict(rules@[i], value@),
{
    let mut out: Vec<Verdict> = Vec::new();
    let mut i: usize = 0;
    while i < rules.len()
        invariant
            i <= rules@.len(),
            out@.len() == i,
            forall|k: int| 0 <= k < i ==> #[trigger] out@[k]@ == rule_verdict(rules@[k], value@),
        decreases rules@.len() - i,
    {
        out.push(rules[i].validate(value));
        i = i + 1;
    }
    out
}

/// A bound on a number never decides a non-empty text by itself: a `Min`
/// or a `Max` rule gives the numeric verdict, leaving the reading of the
/// text and its comparison with the bound to the caller, and the two kinds
/// of bound agree on every text (an empty text passes both).
pub proof fn lemma_bound_rules_defer<N>(low: N, high: N, text: Seq<char>)
    ensures
        text.len() > 0 ==> rule_verdict(ValidationRule::Max(high), text) == VerdictView::Numeric,
        text.len() > 0 ==> rule_verdict(ValidationRule::Min(low), text) == VerdictView::Numeric,
        text.len() == 0 ==> rule_verdict(ValidationRule::Max(high), text) == VerdictView::Valid,
        rule_verdict(ValidationRule::Min(low), text) == rule_verdict(ValidationRule::Max(high), text),
{
}

/// The required rule fails exactly the empty text; a length rule fails a
/// non-empty text exactly when its byte count is outside the bound, and
/// passes it otherwise.
pub proof fn lemma_required_and_length_rules<N>(min: usize, max: usize, text: Seq<char>)
    ensures
        (rule_verdict(ValidationRule::<N>::Required, text) == VerdictView::Valid) <==> text.len() > 0,
        rule_verdict(ValidationRule::<N>::Required, text) is Valid || rule_verdict(
            ValidationRule::<N>::Required,
            text,
        ) is Invalid,
        text.len() > 0 ==> ((rule_verdict(ValidationRule::<N>::MinLength(min), text) is Invalid)
            <==> text_bytes(text) < min),
        text.len() > 0 ==> ((rule_verdict(ValidationRule::<N>::MaxLength(max), text) is Invalid)
            <==> text_bytes(text) > max),
        !(rule_verdict(ValidationRule::<N>::MinLength(min), text) is Invalid) ==> rule_verdict(
            ValidationRule::<N>::MinLength(min),
            text,
        ) == VerdictView::Valid,
        !(rule_verdict(ValidationRule::<N>::MaxLength(max), text) is Invalid) ==> rule_verdict(
            ValidationRule::<N>::MaxLength(max),
            text,
        ) == VerdictView::Valid,
{
}

} // verus!
