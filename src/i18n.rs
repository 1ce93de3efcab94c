//! The translation store: which locales exist, how a locale's nested messages are
//! keyed, and lookups in the locales that have been loaded.
//!
//! A locale is loaded once, on first use, from the string leaves of its message
//! tree; a leaf's key is its path joined with `.`, and a leaf under a key that
//! starts with `_` is metadata, not a message.
use vstd::prelude::*;
use crate::text::chars_of;

verus! {

/// The locales that the editor ships.
pub open spec fn locale_names() -> Seq<Seq<char>> {
    seq![
        "cs"@,
        "de"@,
        "en"@,
        "es"@,
        "fr"@,
        "it"@,
        "ja"@,
        "ko"@,
        "pt-BR"@,
        "ru"@,
        "th"@,
        "uk"@,
        "vi"@,
        "zh-CN"@,
    ]
}

/// Some segment of `path` is a metadata key.
pub open spec fn is_metadata(path: Seq<Seq<char>>) -> bool {
    exists|i: int| 0 <= i < path.len() && path[i].len() > 0 && path[i][0] == '_'
}

/// The segments of `path` joined with `.`.
pub open spec fn dotted(path: Seq<Seq<char>>) -> Seq<char>
    decreases path.len(),
{
    if path.len() == 0 {
        Seq::empty()
    } else if path.len() == 1 {
        path[0]
    } else {
        dotted(path.drop_last()) + seq!['.'] + path.last()
    }
}

/// The message key of the leaf at `path`, or `None` for metadata.
pub open spec fn message_key(path: Seq<Seq<char>>) -> Option<Seq<char>> {
    if is_metadata(path) {
        None
    } else {
        Some(dotted(path))
    }
}

/// The text that the last entry keyed `key` holds.
pub open spec fn lookup(entries: Seq<(Seq<char>, Seq<char>)>, key: Seq<char>) -> Option<Seq<char>>
    decreases entries.len(),
{
    if entries.len() == 0 {
        None
    } else if entries.last().0 == key {
        Some(entries.last().1)
    } else {
        lookup(entries.drop_last(), key)
    }
}

/// The entries that the leaves `leaves` (path, text) give, metadata left out, in
/// order.
pub open spec fn entries_of(leaves: Seq<(Seq<Seq<char>>, Seq<char>)>) -> Seq<(Seq<char>, Seq<char>)>
    decreases leaves.len(),
{
    if leaves.len() == 0 {
        Seq::empty()
    } else {
        let rest = entries_of(leaves.drop_last());
        match message_key(leaves.last().0) {
            Some(k) => rest.push((k, leaves.last().1)),
            None => rest,
        }
    }
}

/// One string leaf of a locale's message tree: the keys on the way to it, and its
/// text.
#[derive(Debug)]
pub struct MessageLeaf {
    pub path: Vec<String>,
    pub text: String,
}

impl MessageLeaf {
    /// The leaf as plain sequences.
    pub open spec fn view_leaf(&self) -> (Seq<Seq<char>>, Seq<char>) {
        (self.path@.map_values(|s: String| s@), self.text@)
    }
}

/// The leaves as plain sequences.
pub open spec fn leaves_view(leaves: Seq<MessageLeaf>) -> Seq<(Seq<Seq<char>>, Seq<char>)> {
    leaves.map_values(|l: MessageLeaf| l.view_leaf())
}

struct LoadedLocale {
    locale: String,
    entries: Vec<(String, String)>,
}

/// The translations of the locales loaded so far.
pub struct RuntimeBackend {
    loaded: Vec<LoadedLocale>,
}

/// Whether `a` and `b` hold the same text.
fn same_text(a: &str, b: &str) -> (r: bool)
    ensures
        r == (a@ == b@),
{
    let x = chars_of(a);
    let y = chars_of(b);
    if x.len() != y.len() {
        return false;
    }
    let mut i: usize = 0;
    while i < x.len()
        invariant
            x@ == a@,
            y@ == b@,
            x@.len() == y@.len(),
            0 <= i <= x@.len(),
            forall|k: int| 0 <= k < i ==> x@[k] == y@[k],
        decreases x@.len() - i,
    {
        if x[i] != y[i] {
            assert(x@[i as int] != y@[i as int]);
            return false;
        }
        i = i + 1;
    }
    assert(x@ =~= y@);
    true
}

/// The message key of the leaf at `path`, or `None` for metadata.
pub fn message_key_of(path: &Vec<String>) -> (r: Option<String>)
    ensures
        match message_key(path@.map_values(|s: String| s@)) {
            Some(k) => r is Some && r->0@ == k,
            None => r is None,
        },
{
    let ghost segs = path@.map_values(|s: String| s@);
    let mut key = String::new();
    let mut i: usize = 0;
    while i < path.len()
        invariant
            0 <= i <= path@.len(),
            segs == path@.map_values(|s: String| s@),
            key@ == dotted(segs.take(i as int)),
            !is_metadata(segs.take(i as int)),
        decreases path@.len() - i,
    {
        let seg = path[i].as_str();
        let first_is_underscore = seg.unicode_len() > 0 && seg.get_char(0) == '_';
        if first_is_underscore {
            assert(segs[i as int][0] == '_');
            return None;
        }
        assert(segs.take(i + 1).drop_last() =~= segs.take(i as int));
        if i == 0 {
            key = String::from_str(seg);
        } else {
            key.append(".");
            proof {
                reveal_strlit(".");
            }
            key.append(seg);
        }
        assert(key@ =~= dotted(segs.take(i + 1)));
        assert(!is_metadata(segs.take(i + 1))) by {
            let t = segs.take(i + 1);
            if is_metadata(t) {
                let j = choose|j: int| 0 <= j < t.len() && #[trigger] t[j].len() > 0 && t[j][0] == '_';
                if j < i {
                    assert(segs.take(i as int)[j] == t[j]);
                }
            }
        }
        i = i + 1;
    }
    assert(segs.take(i as int) =~= segs);
    Some(key)
}

impl RuntimeBackend {
    /// The loaded locales, each with its entries, in loading order.
    pub closed spec fn tables(&self) -> Seq<(Seq<char>, Seq<(Seq<char>, Seq<char>)>)> {
        self.loaded@.map_values(
            |t: LoadedLocale|
                (t.locale@, t.entries@.map_values(|e: (String, String)| (e.0@, e.1@))),
        )
    }

    /// Whether `locale` has been loaded.
    pub open spec fn is_loaded_spec(&self, locale: Seq<char>) -> bool {
        exists|i: int| 0 <= i < self.tables().len() && self.tables()[i].0 == locale
    }

    /// The translation of `key` in `locale`, once loaded.
    pub open spec fn translation(&self, locale: Seq<char>, key: Seq<char>) -> Option<Seq<char>> {
        if self.is_loaded_spec(locale) {
            lookup(
                self.tables()[choose|i: int|
                    0 <= i < self.tables().len() && self.tables()[i].0 == locale].1,
                key,
            )
        } else {
            None
        }
    }

    /// Each locale is loaded at most once, and only a shipped one.
    pub closed spec fn wf(&self) -> bool {
        &&& forall|i: int, j: int|
            0 <= i < j < self.tables().len() ==> self.tables()[i].0 != self.tables()[j].0
        &&& forall|i: int| 0 <= i < self.tables().len() ==> locale_names().contains(self.tables()[i].0)
    }

    /// A backend with no locale loaded yet.
    pub fn new() -> (r: RuntimeBackend)
        ensures
            r.wf(),
            r.tables() == Seq::<(Seq<char>, Seq<(Seq<char>, Seq<char>)>)>::empty(),
    {
        let r = RuntimeBackend { loaded: Vec::new() };
        assert(r.tables() =~= Seq::<(Seq<char>, Seq<(Seq<char>, Seq<char>)>)>::empty());
        r
    }

    /// The locales that the editor ships.
    pub fn available_locales(&self) -> (r: Vec<&'static str>)
        ensures
            r@.map_values(|s: &'static str| s@) == locale_names(),
    {
        let r = vec![
            "cs", "de", "en", "es", "fr", "it", "ja", "ko", "pt-BR", "ru", "th", "uk", "vi", "zh-CN",
        ];
        assert(r@.map_values(|s: &'static str| s@) =~= locale_names());
        r
    }

    /// Whether the editor ships `locale`.
    pub fn is_available(&self, locale: &str) -> (r: bool)
        ensures
            r == locale_names().contains(locale@),
    {
        let names = self.available_locales();
        let mut i: usize = 0;
        while i < names.len()
            invariant
                names@.map_values(|s: &'static str| s@) == locale_names(),
                0 <= i <= names@.len(),
                forall|k: int| 0 <= k < i ==> locale_names()[k] != locale@,
            decreases names@.len() - i,
        {
            if same_text(names[i], locale) {
                assert(locale_names()[i as int] == locale@);
                return true;
            }
            i = i + 1;
        }
        assert(!locale_names().contains(locale@));
        false
    }

    fn find(&self, locale: &str) -> (r: Option<usize>)
        requires
            self.wf(),
        ensures
            r is Some ==> r->0 < self.tables().len() && self.tables()[r->0 as int].0 == locale@,
            r is None ==> !self.is_loaded_spec(locale@),
    {
        let mut i: usize = 0;
        while i < self.loaded.len()
            invariant
                0 <= i <= self.loaded@.len(),
                forall|k: int| 0 <= k < i ==> self.tables()[k].0 != locale@,
            decreases self.loaded@.len() - i,
        {
            if same_text(self.loaded[i].locale.as_str(), locale) {
                return Some(i);
            }
            i = i + 1;
        }
        None
    }

    /// Whether `locale` has been loaded.
    pub fn is_loaded(&self, locale: &str) -> (r: bool)
        requires
            self.wf(),
        ensures
            r == self.is_loaded_spec(locale@),
    {
        self.find(locale).is_some()
    }
}


impl RuntimeBackend {
    proof fn lemma_table_at(&self, i: int)
        requires
            self.wf(),
            0 <= i < self.tables().len(),
        ensures
            self.is_loaded_spec(self.tables()[i].0),
            forall|key: Seq<char>|
                #[trigger] self.translation(self.tables()[i].0, key) == lookup(self.tables()[i].1, key),
    {
        let locale = self.tables()[i].0;
        let j = choose|j: int| 0 <= j < self.tables().len() && self.tables()[j].0 == locale;
        if j != i {
            if j < i {
                assert(self.tables()[j].0 != self.tables()[i].0);
            } else {
                assert(self.tables()[i].0 != self.tables()[j].0);
            }
        }
    }

    /// Loads `locale` from the string leaves of its message tree, unless it is
    /// loaded already or is not a shipped locale. Returns whether it was loaded now.
    pub fn ensure_loaded(&mut self, locale: &str, leaves: &Vec<MessageLeaf>) -> (r: bool)
        requires
            old(self).wf(),
        ensures
            final(self).wf(),
            r == (!old(self).is_loaded_spec(locale@) && locale_names().contains(locale@)),
            r ==> final(self).tables() == old(self).tables().push(
                (locale@, entries_of(leaves_view(leaves@))),
            ),
            !r ==> final(self).tables() == old(self).tables(),
            final(self).is_loaded_spec(locale@) == (old(self).is_loaded_spec(locale@)
                || locale_names().contains(locale@)),
    {
        if self.is_loaded(locale) || !self.is_available(locale) {
            return false;
        }
        let mut entries: Vec<(String, String)> = Vec::new();
        let mut i: usize = 0;
        while i < leaves.len()
            invariant
                0 <= i <= leaves@.len(),
                entries@.map_values(|e: (String, String)| (e.0@, e.1@)) == entries_of(
                    leaves_view(leaves@).take(i as int),
                ),
            decreases leaves@.len() - i,
        {
            let leaf = &leaves[i];
            let ghost before = entries@.map_values(|e: (String, String)| (e.0@, e.1@));
            assert(leaves_view(leaves@).take(i + 1).drop_last() =~= leaves_view(leaves@).take(i as int));
            assert(leaves_view(leaves@).take(i + 1).last() == leaf.view_leaf());
            match message_key_of(&leaf.path) {
                Some(k) => {
                    entries.push((k, leaf.text.clone()));
                    assert(entries@.map_values(|e: (String, String)| (e.0@, e.1@)) =~= before.push(
                        (k@, leaf.text@),
                    ));
                },
                None => {},
            }
            i = i + 1;
        }
        assert(leaves_view(leaves@).take(i as int) =~= leaves_view(leaves@));
        let ghost pre = self.tables();
        let ghost n = pre.len() as int;
        self.loaded.push(LoadedLocale { locale: String::from_str(locale), entries });
        assert(self.tables() =~= pre.push((locale@, entries_of(leaves_view(leaves@)))));
        assert(self.tables()[n].0 == locale@);
        assert(self.wf()) by {
            assert forall|a: int, b: int|
                0 <= a < b < self.tables().len() implies self.tables()[a].0 != self.tables()[b].0 by {
                if b == n {
                    assert(self.tables()[a] == pre[a]);
                } else {
                    assert(self.tables()[a] == pre[a]);
                    assert(self.tables()[b] == pre[b]);
                }
            }
            assert forall|a: int| 0 <= a < self.tables().len() implies locale_names().contains(
                self.tables()[a].0,
            ) by {
                if a < n {
                    assert(self.tables()[a] == pre[a]);
                }
            }
        }
        true
    }

    /// The translation of `key` in `locale`: `None` where the locale is not loaded
    /// or holds no such key; the last entry of that key otherwise.
    pub fn translate(&self, locale: &str, key: &str) -> (r: Option<String>)
        requires
            self.wf(),
        ensures
            match self.translation(locale@, key@) {
                Some(t) => r is Some && r->0@ == t,
                None => r is None,
            },
    {
        let t = match self.find(locale) {
            None => {
                return None;
            },
            Some(t) => t,
        };
        proof {
            self.lemma_table_at(t as int);
        }
        let entries = &self.loaded[t as usize].entries;
        let ghost es = self.tables()[t as int].1;
        assert(entries@.map_values(|e: (String, String)| (e.0@, e.1@)) == es);
        let mut j: usize = entries.len();
        assert(es.take(j as int) =~= es);
        assert(self.translation(locale@, key@) == lookup(es, key@));
        while j > 0
            invariant
                self.translation(locale@, key@) == lookup(es, key@),
                0 <= j <= entries@.len(),
                es == entries@.map_values(|e: (String, String)| (e.0@, e.1@)),
                lookup(es, key@) == lookup(es.take(j as int), key@),
            decreases j,
        {
            let ghost part = es.take(j as int);
            assert(part.drop_last() =~= es.take(j - 1));
            assert(part.last() == es[j - 1]);
            if same_text(entries[j - 1].0.as_str(), key) {
                assert(es[j - 1] == (entries@[j - 1].0@, entries@[j - 1].1@));
                return Some(entries[j - 1].1.clone());
            }
            j = j - 1;
        }
        None
    }
}


impl Default for RuntimeBackend {
    fn default() -> (r: RuntimeBackend)
        ensures
            r.wf(),
            r.tables() == Seq::<(Seq<char>, Seq<(Seq<char>, Seq<char>)>)>::empty(),
    {
        RuntimeBackend::new()
    }
}

} // verus!
