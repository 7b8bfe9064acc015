//! Caching parsed rich text per widget, to skip re-parsing unchanged text.
use vstd::prelude::*;
use std::collections::HashMap;
use std::collections::hash_map::DefaultHasher;
use std::hash::{Hash, Hasher};
use vstd::std_specs::hash::DefaultHasherAdditionalSpecFns;
use crate::rich_text::{RichText, SpanView, copy_rich_text, rich_view};

verus! {

broadcast use vstd::std_specs::hash::group_hash_axioms;

/// The hasher writes that hashing the string `text` appends.
pub uninterp spec fn str_hash_writes(text: Seq<char>) -> Seq<Seq<u8>>;

/// Wraps `<str as Hash>::hash` into a `DefaultHasher`: the writes it makes
/// depend on the text alone and are appended to those already made.
#[verifier::external_body]
fn hash_str(text: &str, hasher: &mut DefaultHasher)
    ensures
        final(hasher)@ == old(hasher)@ + str_hash_writes(text@),
{
    text.hash(hasher)
}

/// The hash of a text: a fresh `DefaultHasher` fed the text.
pub open spec fn text_hash(text: Seq<char>) -> u64 {
    DefaultHasher::spec_finish(Seq::<Seq<u8>>::empty() + str_hash_writes(text))
}

/// A cache entry: the hash of the text it was made from and the parsed text.
pub struct WidgetRenderCache {
    /// Hash of the widget's text.
    pub content_hash: u64,
    /// Parsed rich text.
    pub parsed_rich_text: Option<RichText>,
}

pub open spec fn entry_view(e: WidgetRenderCache) -> (u64, Option<(Seq<SpanView>, bool)>) {
    (
        e.content_hash,
        match e.parsed_rich_text {
            Some(r) => Some(rich_view(r)),
            None => None,
        },
    )
}

/// Cache of parsed rich text, keyed by widget identifier or content hash.
pub struct WidgetStateTracker {
    cache: HashMap<u64, WidgetRenderCache>,
}

impl WidgetStateTracker {
    /// The cache as a map from key to (content hash, parsed text).
    pub closed spec fn entries(&self) -> Map<u64, (u64, Option<(Seq<SpanView>, bool)>)> {
        self.cache@.map_values(|e: WidgetRenderCache| entry_view(e))
    }

    /// An empty tracker.
    pub fn new() -> (t: Self)
        ensures
            t.entries() == Map::<u64, (u64, Option<(Seq<SpanView>, bool)>)>::empty(),
    {
        let t = WidgetStateTracker { cache: HashMap::new() };
        assert(t.entries() =~= Map::<u64, (u64, Option<(Seq<SpanView>, bool)>)>::empty());
        t
    }

    /// Hash of a text, as used to detect changes.
    pub fn compute_hash(text: &str) -> (h: u64)
        ensures
            h == text_hash(text@),
    {
        let mut hasher = DefaultHasher::new();
        hash_str(text, &mut hasher);
        hasher.finish()
    }

    /// Whether the text of `widget_id` changed since it was cached, and the
    /// cached parse when it did not.
    pub fn check_text_cache(&mut self, widget_id: u64, text: &str) -> (r: (bool, Option<RichText>))
        ensures
            final(self).entries() == old(self).entries(),
            ({
                let e = old(self).entries();
                if e.contains_key(widget_id) && e[widget_id].0 == text_hash(text@) {
                    !r.0 && match r.1 {
                        Some(rt) => e[widget_id].1 == Some(rich_view(rt)),
                        None => e[widget_id].1 is None,
                    }
                } else {
                    r.0 && r.1 is None
                }
            }),
    {
        let text_hash = Self::compute_hash(text);
        match self.cache.get(&widget_id) {
            Some(cached) => {
                if cached.content_hash == text_hash {
                    let r = match &cached.parsed_rich_text {
                        Some(rt) => Some(copy_rich_text(rt)),
                        None => None,
                    };
                    return (false, r);
                }
            },
            None => {},
        }
        (true, None)
    }

    /// The cached parse stored under `hash`.
    pub fn get_by_hash(&mut self, hash: u64) -> (r: Option<RichText>)
        ensures
            final(self).entries() == old(self).entries(),
            match r {
                Some(rt) => old(self).entries().contains_key(hash) && old(self).entries()[hash].1
                    == Some(rich_view(rt)),
                None => !old(self).entries().contains_key(hash) || old(self).entries()[hash].1 is None,
            },
    {
        match self.cache.get(&hash) {
            Some(cached) => match &cached.parsed_rich_text {
                Some(rt) => Some(copy_rich_text(rt)),
                None => None,
            },
            None => None,
        }
    }

    /// Stores a parse under its own content hash.
    pub fn store_by_hash(&mut self, hash: u64, rich_text: RichText)
        ensures
            final(self).entries() == old(self).entries().insert(hash, (hash, Some(rich_view(rich_text)))),
    {
        let ghost rv = rich_view(rich_text);
        self.cache.insert(hash, WidgetRenderCache { content_hash: hash, parsed_rich_text: Some(rich_text) });
        assert(self.entries() =~= old(self).entries().insert(hash, (hash, Some(rv))));
    }

    /// Stores the parse of `text` for `widget_id`.
    pub fn store_text_cache(&mut self, widget_id: u64, text: &str, rich_text: RichText)
        ensures
            final(self).entries() == old(self).entries().insert(
                widget_id,
                (text_hash(text@), Some(rich_view(rich_text))),
            ),
    {
        let text_hash = Self::compute_hash(text);
        let ghost rv = rich_view(rich_text);
        self.cache.insert(widget_id, WidgetRenderCache { content_hash: text_hash, parsed_rich_text: Some(rich_text) });
        assert(self.entries() =~= old(self).entries().insert(widget_id, (text_hash, Some(rv))));
    }

    /// Empties the cache.
    pub fn clear(&mut self)
        ensures
            final(self).entries() == Map::<u64, (u64, Option<(Seq<SpanView>, bool)>)>::empty(),
    {
        self.cache.clear();
        assert(self.entries() =~= Map::<u64, (u64, Option<(Seq<SpanView>, bool)>)>::empty());
    }

    /// Number of cached entries.
    pub fn len(&self) -> (n: usize)
        ensures
            n == self.entries().len(),
    {
        assert(self.entries().dom() =~= self.cache@.dom());
        self.cache.len()
    }

    /// The cache holds no entry.
    pub fn is_empty(&self) -> (b: bool)
        ensures
            b == (self.entries().len() == 0),
    {
        assert(self.entries().dom() =~= self.cache@.dom());
        self.cache.len() == 0
    }
}

/// A text stored for a widget is then found unchanged, with the stored parse.
pub proof fn lemma_store_then_check(
    e: Map<u64, (u64, Option<(Seq<SpanView>, bool)>)>,
    widget_id: u64,
    text: Seq<char>,
    parsed: (Seq<SpanView>, bool),
)
    ensures
        ({
            let e2 = e.insert(widget_id, (text_hash(text), Some(parsed)));
            e2.contains_key(widget_id) && e2[widget_id].0 == text_hash(text) && e2[widget_id].1
                == Some(parsed)
        }),
{
}

/// A text whose hash differs from the stored one is reported as changed.
pub proof fn lemma_other_text_is_dirty(
    e: Map<u64, (u64, Option<(Seq<SpanView>, bool)>)>,
    widget_id: u64,
    stored: Seq<char>,
    checked: Seq<char>,
    parsed: (Seq<SpanView>, bool),
)
    requires
        text_hash(stored) != text_hash(checked),
    ensures
        ({
            let e2 = e.insert(widget_id, (text_hash(stored), Some(parsed)));
            !(e2.contains_key(widget_id) && e2[widget_id].0 == text_hash(checked))
        }),
{
}

} // verus!
