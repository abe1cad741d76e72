use vstd::prelude::*;

verus! {

/// A forwarding destination: a chat, optionally narrowed to one thread of it.
#[derive(Clone, Copy, Debug, PartialEq, Eq, Structural)]
pub struct Recepient {
    pub chat_id: i64,
    pub thread_id: Option<i32>,
}

/// `s` with `r` appended, unless an equal entry is already there.
pub open spec fn with_recepient(s: Seq<Recepient>, r: Recepient) -> Seq<Recepient> {
    if s.contains(r) {
        s
    } else {
        s.push(r)
    }
}

/// `s` with every entry equal to `r` taken out, the others kept in order.
pub open spec fn without_recepient(s: Seq<Recepient>, r: Recepient) -> Seq<Recepient>
    decreases s.len(),
{
    if s.len() == 0 {
        s
    } else {
        let rest = without_recepient(s.drop_last(), r);
        if s.last() == r {
            rest
        } else {
            rest.push(s.last())
        }
    }
}

/// The first occurrence of each entry of `s`, in order.
pub open spec fn unique_recepients(s: Seq<Recepient>) -> Seq<Recepient>
    decreases s.len(),
{
    if s.len() == 0 {
        s
    } else {
        with_recepient(unique_recepients(s.drop_last()), s.last())
    }
}

pub proof fn lemma_with_recepient_unique(s: Seq<Recepient>, r: Recepient)
    requires
        s.no_duplicates(),
    ensures
        with_recepient(s, r).no_duplicates(),
        with_recepient(s, r).contains(r),
        forall|x: Recepient| #[trigger]
            with_recepient(s, r).contains(x) <==> (s.contains(x) || x == r),
{
    lemma_push_contains(s, r);
}

pub proof fn lemma_without_recepient(s: Seq<Recepient>, r: Recepient)
    ensures
        s.no_duplicates() ==> without_recepient(s, r).no_duplicates(),
        !without_recepient(s, r).contains(r),
        forall|x: Recepient| #[trigger]
            without_recepient(s, r).contains(x) <==> (s.contains(x) && x != r),
        without_recepient(s, r).len() <= s.len(),
    decreases s.len(),
{
    if s.len() > 0 {
        let p = s.drop_last();
        lemma_without_recepient(p, r);
        let rest = without_recepient(p, r);
        assert forall|x: Recepient| #[trigger] s.contains(x) <==> (p.contains(x) || x == s.last()) by {
            if s.contains(x) {
                let i = choose|i: int| 0 <= i < s.len() && s[i] == x;
                if i < p.len() {
                    assert(p[i] == x);
                }
            }
            if p.contains(x) {
                let i = choose|i: int| 0 <= i < p.len() && p[i] == x;
                assert(s[i] == x);
            }
            if x == s.last() {
                assert(s[s.len() - 1] == x);
            }
        }
        if s.no_duplicates() {
            assert(p.no_duplicates());
            assert(!p.contains(s.last())) by {
                if p.contains(s.last()) {
                    let i = choose|i: int| 0 <= i < p.len() && p[i] == s.last();
                    assert(s[i] == s[s.len() - 1]);
                }
            }
        }
        if s.last() != r {
            lemma_push_contains(rest, s.last());
        }
    }
}

proof fn lemma_push_contains(s: Seq<Recepient>, r: Recepient)
    ensures
        forall|x: Recepient| #[trigger] s.push(r).contains(x) <==> (s.contains(x) || x == r),
        (s.no_duplicates() && !s.contains(r)) ==> s.push(r).no_duplicates(),
{
    let t = s.push(r);
    assert(t[t.len() - 1] == r);
    assert forall|x: Recepient| #[trigger] t.contains(x) <==> (s.contains(x) || x == r) by {
        if t.contains(x) {
            let i = choose|i: int| 0 <= i < t.len() && t[i] == x;
            if i < s.len() {
                assert(s[i] == x);
            }
        }
        if s.contains(x) {
            let i = choose|i: int| 0 <= i < s.len() && s[i] == x;
            assert(t[i] == x);
        }
    }
}

pub proof fn lemma_unique_recepients(s: Seq<Recepient>)
    ensures
        unique_recepients(s).no_duplicates(),
        forall|x: Recepient| #[trigger] unique_recepients(s).contains(x) <==> s.contains(x),
    decreases s.len(),
{
    if s.len() > 0 {
        let p = s.drop_last();
        lemma_unique_recepients(p);
        lemma_with_recepient_unique(unique_recepients(p), s.last());
        lemma_push_contains(p, s.last());
        assert(p.push(s.last()) == s);
    }
}

/// The recipients that are persisted as one document.
#[derive(Clone, Debug)]
pub struct Settings {
    pub recepients: Vec<Recepient>,
}

impl View for Settings {
    type V = Seq<Recepient>;

    open spec fn view(&self) -> Seq<Recepient> {
        self.recepients@
    }
}

impl Settings {
    pub fn new() -> (r: Settings)
        ensures
            r@ == Seq::<Recepient>::empty(),
    {
        Settings { recepients: Vec::new() }
    }

    /// An independent copy of the recipients.
    pub fn snapshot(&self) -> (r: Settings)
        ensures
            r@ == self@,
    {
        let mut out: Vec<Recepient> = Vec::new();
        let mut i: usize = 0;
        while i < self.recepients.len()
            invariant
                i <= self.recepients@.len(),
                out@ == self.recepients@.take(i as int),
            decreases self.recepients@.len() - i,
        {
            out.push(self.recepients[i]);
            i = i + 1;
            assert(out@ =~= self.recepients@.take(i as int));
        }
        assert(out@ =~= self.recepients@);
        Settings { recepients: out }
    }
}

/// The in-memory copy of the settings, and whether it was read from storage yet.
pub struct SettingsCache {
    pub loaded: bool,
    pub settings: Settings,
}

impl SettingsCache {
    pub fn new() -> (r: SettingsCache)
        ensures
            !r.loaded,
            r.settings@ == Seq::<Recepient>::empty(),
    {
        SettingsCache { loaded: false, settings: Settings::new() }
    }
}

/// The recipient store: a cache of the settings document kept at `filepath`.
///
/// Reading and writing the document is left to the caller: `complete_load` takes
/// what was read, and every mutation returns the document to write.
pub struct Accessor {
    filepath: String,
    settings_cache: SettingsCache,
}

impl Accessor {
    pub closed spec fn path(&self) -> Seq<char> {
        self.filepath@
    }

    pub closed spec fn is_loaded(&self) -> bool {
        self.settings_cache.loaded
    }

    pub closed spec fn recepients(&self) -> Seq<Recepient> {
        self.settings_cache.settings@
    }

    /// No two cached entries are equal.
    pub open spec fn wf(&self) -> bool {
        self.recepients().no_duplicates()
    }

    pub fn new(filepath: &str) -> (r: Accessor)
        ensures
            r.wf(),
            r.path() == filepath@,
            !r.is_loaded(),
            r.recepients() == Seq::<Recepient>::empty(),
    {
        Accessor { filepath: filepath.to_owned(), settings_cache: SettingsCache::new() }
    }

    pub fn filepath(&self) -> (r: &str)
        ensures
            r@ == self.path(),
    {
        self.filepath.as_str()
    }

    /// Whether the document still has to be read before the cache can be used.
    pub fn needs_load(&self) -> (r: bool)
        ensures
            r == !self.is_loaded(),
    {
        !self.settings_cache.loaded
    }

    /// Takes in the stored document (`None` where there is none yet). Only the
    /// first call has an effect; entries that repeat an earlier one are dropped.
    pub fn complete_load(&mut self, stored: Option<Settings>)
        requires
            old(self).wf(),
        ensures
            final(self).wf(),
            final(self).is_loaded(),
            final(self).path() == old(self).path(),
            old(self).is_loaded() ==> final(self).recepients() == old(self).recepients(),
            !old(self).is_loaded() ==> final(self).recepients() == match stored {
                Some(s) => unique_recepients(s@),
                None => Seq::<Recepient>::empty(),
            },
    {
        if self.settings_cache.loaded {
            return;
        }
        let loaded = match stored {
            Some(s) => {
                proof {
                    lemma_unique_recepients(s@);
                }
                dedup_recepients(&s.recepients)
            },
            None => Vec::new(),
        };
        self.settings_cache.settings = Settings { recepients: loaded };
        self.settings_cache.loaded = true;
    }

    /// A copy of the cached recipients.
    pub fn get_settings(&self) -> (r: Settings)
        ensures
            r@ == self.recepients(),
    {
        self.settings_cache.settings.snapshot()
    }

    /// Adds `recepient` unless an equal one is there; returns the document to persist.
    pub fn add_recepient(&mut self, recepient: Recepient) -> (persist: Settings)
        requires
            old(self).wf(),
        ensures
            final(self).wf(),
            final(self).recepients() == with_recepient(old(self).recepients(), recepient),
            persist@ == final(self).recepients(),
            final(self).is_loaded() == old(self).is_loaded(),
            final(self).path() == old(self).path(),
    {
        proof {
            lemma_with_recepient_unique(self.recepients(), recepient);
        }
        if !contains_recepient(&self.settings_cache.settings.recepients, &recepient) {
            self.settings_cache.settings.recepients.push(recepient);
        }
        self.settings_cache.settings.snapshot()
    }

    /// Removes every entry equal to `recepient`; returns the document to persist.
    pub fn remove_recepient(&mut self, recepient: Recepient) -> (persist: Settings)
        requires
            old(self).wf(),
        ensures
            final(self).wf(),
            final(self).recepients() == without_recepient(old(self).recepients(), recepient),
            persist@ == final(self).recepients(),
            final(self).is_loaded() == old(self).is_loaded(),
            final(self).path() == old(self).path(),
    {
        proof {
            lemma_without_recepient(self.recepients(), recepient);
        }
        let kept = filter_out(&self.settings_cache.settings.recepients, &recepient);
        self.settings_cache.settings = Settings { recepients: kept };
        self.settings_cache.settings.snapshot()
    }
}

fn contains_recepient(v: &Vec<Recepient>, r: &Recepient) -> (b: bool)
    ensures
        b == v@.contains(*r),
{
    let mut i: usize = 0;
    while i < v.len()
        invariant
            i <= v@.len(),
            forall|j: int| 0 <= j < i ==> v@[j] != *r,
        decreases v@.len() - i,
    {
        if v[i] == *r {
            return true;
        }
        i = i + 1;
    }
    false
}

fn filter_out(v: &Vec<Recepient>, r: &Recepient) -> (out: Vec<Recepient>)
    ensures
        out@ == without_recepient(v@, *r),
{
    let mut out: Vec<Recepient> = Vec::new();
    let mut i: usize = 0;
    while i < v.len()
        invariant
            i <= v@.len(),
            out@ == without_recepient(v@.take(i as int), *r),
        decreases v@.len() - i,
    {
        assert(v@.take(i + 1).drop_last() =~= v@.take(i as int));
        if v[i] != *r {
            out.push(v[i]);
        }
        i = i + 1;
    }
    assert(v@.take(v@.len() as int) =~= v@);
    out
}

fn dedup_recepients(v: &Vec<Recepient>) -> (out: Vec<Recepient>)
    ensures
        out@ == unique_recepients(v@),
{
    let mut out: Vec<Recepient> = Vec::new();
    let mut i: usize = 0;
    while i < v.len()
        invariant
            i <= v@.len(),
            out@ == unique_recepients(v@.take(i as int)),
        decreases v@.len() - i,
    {
        assert(v@.take(i + 1).drop_last() =~= v@.take(i as int));
        if !contains_recepient(&out, &v[i]) {
            out.push(v[i]);
        }
        i = i + 1;
    }
    assert(v@.take(v@.len() as int) =~= v@);
    out
}

} // verus!
