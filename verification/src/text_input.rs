//! Keyboard editing of text inputs, and tab selection by click.
//!
//! Key events reach the library as [`KeyInput`] values; the windowing layer
//! turns its own events into these.
use vstd::prelude::*;
use crate::data_source::{digit_char, digits, push_digits};
use crate::text_util::{chars_to_string, push_char, str_to_chars};

verus! {

/// A key press as it concerns a text input.
#[derive(Debug)]
pub enum KeyInput {
    /// The backspace key.
    Backspace,
    /// The space bar.
    Space,
    /// A key that types the given text.
    Text(String),
    /// Any other key.
    Other,
}

pub ghost enum KeyView {
    Backspace,
    Space,
    Text(Seq<char>),
    Other,
}

impl View for KeyInput {
    type V = KeyView;

    open spec fn view(&self) -> KeyView {
        match self {
            KeyInput::Backspace => KeyView::Backspace,
            KeyInput::Space => KeyView::Space,
            KeyInput::Text(t) => KeyView::Text(t@),
            KeyInput::Other => KeyView::Other,
        }
    }
}

/// A control character: general category Cc, that is U+0000 to U+001F and
/// U+007F to U+009F.
pub open spec fn is_control(c: char) -> bool {
    (c as u32) <= 0x1f || (0x7f <= (c as u32) && (c as u32) <= 0x9f)
}

pub open spec fn has_control(t: Seq<char>) -> bool {
    exists|i: int| 0 <= i < t.len() && is_control(#[trigger] t[i])
}

/// The text after a key press, and whether it changed: backspace removes the
/// last character, space adds a space, typed text without control
/// characters is appended; everything else leaves the text as it is.
pub open spec fn edited(value: Seq<char>, key: KeyView) -> (Seq<char>, bool) {
    match key {
        KeyView::Backspace => if value.len() > 0 {
            (value.drop_last(), true)
        } else {
            (value, false)
        },
        KeyView::Space => (value.push(' '), true),
        KeyView::Text(t) => if has_control(t) {
            (value, false)
        } else {
            (value + t, true)
        },
        KeyView::Other => (value, false),
    }
}

fn is_control_exec(c: char) -> (b: bool)
    ensures
        b == is_control(c),
{
    let code = c as u32;
    code <= 0x1f || (0x7f <= code && code <= 0x9f)
}

/// Applies a key press to the text of an input; returns whether it changed.
pub fn apply_key(value: &mut String, key: &KeyInput) -> (changed: bool)
    ensures
        (final(value)@, changed) == edited(old(value)@, key@),
{
    match key {
        KeyInput::Backspace => {
            let mut chars = str_to_chars(value.as_str());
            if chars.len() == 0 {
                false
            } else {
                let _last = chars.pop();
                assert(chars@ =~= old(value)@.drop_last());
                *value = chars_to_string(&chars);
                true
            }
        },
        KeyInput::Space => {
            push_char(value, ' ');
            true
        },
        KeyInput::Text(t) => {
            let typed = str_to_chars(t.as_str());
            let mut i: usize = 0;
            while i < typed.len()
                invariant
                    i <= typed@.len(),
                    typed@ == t@,
                    key@ == KeyView::Text(t@),
                    value@ == old(value)@,
                    forall|k: int| 0 <= k < i ==> !is_control(#[trigger] typed@[k]),
                decreases typed@.len() - i,
            {
                if is_control_exec(typed[i]) {
                    assert(is_control(t@[i as int]));
                    assert(has_control(t@));
                    return false;
                }
                i = i + 1;
            }
            let mut k: usize = 0;
            while k < typed.len()
                invariant
                    k <= typed@.len(),
                    typed@ == t@,
                    value@ == old(value)@ + t@.subrange(0, k as int),
                decreases typed@.len() - k,
            {
                push_char(value, typed[k]);
                k = k + 1;
                assert(value@ =~= old(value)@ + t@.subrange(0, k as int));
            }
            assert(t@.subrange(0, k as int) =~= t@);
            true
        },
        KeyInput::Other => false,
    }
}

/// The value of an ASCII decimal digit, if `c` is one.
pub open spec fn digit_value(c: char) -> Option<nat> {
    if '0' <= c && c <= '9' {
        Some(((c as u32) - ('0' as u32)) as nat)
    } else {
        None
    }
}

/// The number written by the digits `d`, most significant first.
pub open spec fn digits_number(d: Seq<char>) -> nat
    decreases d.len(),
{
    if d.len() == 0 {
        0
    } else {
        digits_number(d.drop_last()) * 10 + match digit_value(d.last()) {
            Some(v) => v,
            None => 0,
        }
    }
}

/// The index written in `s`: an optional `+` and at least one decimal digit,
/// with a value that fits in `usize`.
pub open spec fn index_of_text(s: Seq<char>) -> Option<nat> {
    let d = index_digits(s);
    if d.len() > 0 && all_digits(d) && digits_number(d) <= usize::MAX {
        Some(digits_number(d))
    } else {
        None
    }
}

/// The text of an index without its optional leading `+`.
pub open spec fn index_digits(s: Seq<char>) -> Seq<char> {
    if s.len() > 1 && s[0] == '+' {
        s.drop_first()
    } else {
        s
    }
}

pub open spec fn all_digits(d: Seq<char>) -> bool {
    forall|i: int| 0 <= i < d.len() ==> digit_value(#[trigger] d[i]) is Some
}

proof fn lemma_digits_number_grows(d: Seq<char>, k: int)
    requires
        0 <= k <= d.len(),
        all_digits(d),
    ensures
        digits_number(d.subrange(0, k)) <= digits_number(d),
    decreases d.len() - k,
{
    if k < d.len() {
        lemma_digits_number_grows(d, k + 1);
        assert(d.subrange(0, k + 1).drop_last() =~= d.subrange(0, k));
        assert(digits_number(d.subrange(0, k + 1)) >= digits_number(d.subrange(0, k)) * 10);
    } else {
        assert(d.subrange(0, k) =~= d);
    }
}

/// Reads an index written in decimal, as `index_of_text` says.
pub fn parse_index(s: &str) -> (r: Option<usize>)
    ensures
        r == match index_of_text(s@) {
            Some(v) => Some(v as usize),
            None => None::<usize>,
        },
{
    let chars = str_to_chars(s);
    let start: usize = if chars.len() > 1 && chars[0] == '+' {
        1
    } else {
        0
    };
    let ghost d = index_digits(s@);
    assert(d =~= chars@.subrange(start as int, chars@.len() as int));
    if start == chars.len() {
        assert(d.len() == 0);
        return None;
    }
    let mut value: usize = 0;
    let mut i: usize = start;
    while i < chars.len()
        invariant
            start <= i <= chars@.len(),
            chars@ == s@,
            d == index_digits(s@),
            d == chars@.subrange(start as int, chars@.len() as int),
            forall|k: int| 0 <= k < i - start ==> digit_value(#[trigger] d[k]) is Some,
            value == digits_number(d.subrange(0, i - start)),
        decreases chars@.len() - i,
    {
        let c = chars[i];
        if !('0' <= c && c <= '9') {
            assert(digit_value(d[i - start]) is None);
            assert(!all_digits(d));
            return None;
        }
        let v = (c as u32 - '0' as u32) as usize;
        assert(d.subrange(0, i + 1 - start).drop_last() =~= d.subrange(0, i - start));
        assert(d.subrange(0, i + 1 - start).last() == c);
        if value > (usize::MAX - v) / 10 {
            proof {
                let m = i + 1 - start;
                assert(digits_number(d.subrange(0, m)) == value * 10 + v);
                assert(value * 10 + v > usize::MAX) by (nonlinear_arith)
                    requires
                        value > (usize::MAX - v) / 10,
                        v <= 9,
                ;
                if all_digits(d) {
                    lemma_digits_number_grows(d, m);
                }
            }
            return None;
        }
        assert(value * 10 + v <= usize::MAX) by (nonlinear_arith)
            requires
                value <= (usize::MAX - v) / 10,
                v <= 9,
        ;
        value = value * 10 + v;
        i = i + 1;
    }
    assert(d.subrange(0, d.len() as int) =~= d);
    Some(value)
}

/// The tab to select after a click: a click on the header of tab `i` of this
/// widget (an identifier `<widget id>:tab:<i>`) selects that tab when it
/// exists and is not already selected.
pub open spec fn clicked_tab(
    clicked: Option<Seq<char>>,
    wid: Option<Seq<char>>,
    tab_count: nat,
    selected: nat,
) -> Option<nat> {
    match (clicked, wid) {
        (Some(c), Some(w)) => {
            let p = w + ":tab:"@;
            if p.len() <= c.len() && c.subrange(0, p.len() as int) == p {
                match index_of_text(c.subrange(p.len() as int, c.len() as int)) {
                    Some(i) => if i < tab_count && i != selected {
                        Some(i)
                    } else {
                        None
                    },
                    None => None,
                }
            } else {
                None
            }
        },
        _ => None,
    }
}

/// The tab to select after the click on `clicked`, if the click changes the
/// selection of the tab widget `wid`.
pub fn select_clicked_tab(
    clicked: Option<&str>,
    wid: Option<&str>,
    tab_count: usize,
    selected: usize,
) -> (r: Option<usize>)
    ensures
        r == match clicked_tab(
            match clicked {
                Some(c) => Some(c@),
                None => None,
            },
            match wid {
                Some(w) => Some(w@),
                None => None,
            },
            tab_count as nat,
            selected as nat,
        ) {
            Some(i) => Some(i as usize),
            None => None::<usize>,
        },
{
    match (clicked, wid) {
        (Some(c), Some(w)) => {
            let cc = str_to_chars(c);
            let mut p = str_to_chars(w);
            let mut sep = str_to_chars(":tab:");
            p.append(&mut sep);
            if p.len() > cc.len() {
                return None;
            }
            let mut i: usize = 0;
            while i < p.len()
                invariant
                    i <= p@.len() <= cc@.len(),
                    clicked == Some(c),
                    wid == Some(w),
                    cc@ == c@,
                    p@ == w@ + ":tab:"@,
                    cc@.subrange(0, i as int) == p@.subrange(0, i as int),
                decreases p@.len() - i,
            {
                if cc[i] != p[i] {
                    assert(cc@.subrange(0, p@.len() as int)[i as int] != p@[i as int]);
                    assert(c@.subrange(0, (w@ + ":tab:"@).len() as int) != w@ + ":tab:"@);
                    return None;
                }
                i = i + 1;
                assert(cc@.subrange(0, i as int) =~= p@.subrange(0, i as int));
            }
            assert(p@.subrange(0, p@.len() as int) =~= p@);
            let mut rest: Vec<char> = Vec::new();
            let mut k: usize = p.len();
            while k < cc.len()
                invariant
                    p@.len() <= k <= cc@.len(),
                    rest@ == cc@.subrange(p@.len() as int, k as int),
                    clicked == Some(c),
                    wid == Some(w),
                    cc@ == c@,
                    p@ == w@ + ":tab:"@,
                    cc@.subrange(0, p@.len() as int) == p@,
                decreases cc@.len() - k,
            {
                rest.push(cc[k]);
                k = k + 1;
                assert(rest@ =~= cc@.subrange(p@.len() as int, k as int));
            }
            let rs = chars_to_string(&rest);
            match parse_index(rs.as_str()) {
                Some(idx) => {
                    if idx < tab_count && idx != selected {
                        Some(idx)
                    } else {
                        None
                    }
                },
                None => None,
            }
        },
        _ => None,
    }
}

/// Backspace undoes typing: after a typed character (not a control
/// character) or a space, backspace gives back the text as it was.
pub proof fn lemma_backspace_undoes_typing(value: Seq<char>, c: char)
    requires
        !is_control(c),
    ensures
        edited(edited(value, KeyView::Text(seq![c])).0, KeyView::Backspace) == (value, true),
        edited(edited(value, KeyView::Space).0, KeyView::Backspace) == (value, true),
{
    assert(!has_control(seq![c]));
    assert((value + seq![c]).drop_last() =~= value);
    assert(value.push(' ').drop_last() =~= value);
}

/// The action of a click on the header of tab `idx` of the tab widget `wid`.
pub fn tab_header_action(wid: &str, idx: usize) -> (a: String)
    ensures
        a@ == wid@ + ":tab:"@ + digits(idx as nat),
{
    let mut v = str_to_chars(wid);
    let mut sep = str_to_chars(":tab:");
    v.append(&mut sep);
    push_digits(idx as u64, &mut v);
    chars_to_string(&v)
}

proof fn lemma_digit_round_trip(d: nat)
    requires
        d < 10,
    ensures
        digit_value(digit_char(d)) == Some(d),
{
}

/// The decimal digits of `n` read back as `n`.
proof fn lemma_digits_read_back(n: nat)
    ensures
        all_digits(digits(n)),
        digits(n).len() >= 1,
        digits_number(digits(n)) == n,
        digit_value(digits(n)[0]) is Some,
    decreases n,
{
    if n < 10 {
        lemma_digit_round_trip(n);
        assert(digits(n).drop_last() =~= Seq::<char>::empty());
        assert(digits_number(Seq::<char>::empty()) == 0);
        assert(digits(n).last() == digit_char(n));
    } else {
        lemma_digits_read_back(n / 10);
        lemma_digit_round_trip(n % 10);
        let d = digits(n);
        assert(d.drop_last() == digits(n / 10));
        assert forall|i: int| 0 <= i < d.len() implies digit_value(#[trigger] d[i]) is Some by {
            if i < d.len() - 1 {
                assert(d[i] == digits(n / 10)[i]);
            }
        }
        assert(d[0] == digits(n / 10)[0]);
        assert(d.last() == digit_char(n % 10));
        assert(digits_number(d) == digits_number(digits(n / 10)) * 10 + n % 10);
        assert((n / 10) * 10 + n % 10 == n);
    }
}

/// A click on the header action of tab `i` selects that tab, when it exists
/// and is not already selected.
pub proof fn lemma_tab_click_round_trip(wid: Seq<char>, i: nat, tab_count: nat, selected: nat)
    requires
        i <= usize::MAX,
    ensures
        clicked_tab(Some(wid + ":tab:"@ + digits(i)), Some(wid), tab_count, selected) == (if i
            < tab_count && i != selected {
            Some(i)
        } else {
            None
        }),
{
    let p = wid + ":tab:"@;
    let c = p + digits(i);
    lemma_digits_read_back(i);
    assert(c.subrange(0, p.len() as int) =~= p);
    assert(c.subrange(p.len() as int, c.len() as int) =~= digits(i));
    let d = digits(i);
    assert(digit_value(d[0]) is Some);
    assert(d[0] != '+');
    assert(index_digits(d) == d);
}

} // verus!
