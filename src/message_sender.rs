use vstd::prelude::*;

verus! {

/// Seconds a media group must stay quiet before it is delivered.
pub const MESSAGE_SEND_DELAY_SECONDS: u64 = 10;

/// Seconds between two scans of the pending media groups.
pub const PAUSE_SECONDS: u64 = 5;

/// Whether a media group last touched at `last` has been quiet long enough at `now`.
pub open spec fn is_quiet(now: u64, last: u64) -> bool {
    now as int - last as int >= MESSAGE_SEND_DELAY_SECONDS as int
}

/// Ascending order.
pub open spec fn sorted_ids(s: Seq<i32>) -> bool {
    forall|i: int, j: int| 0 <= i < j < s.len() ==> s[i] <= s[j]
}

/// The key that groups the posts of one album.
#[derive(Debug, Clone, Hash)]
pub struct MediaGroupId(pub String);

impl View for MediaGroupId {
    type V = Seq<char>;

    open spec fn view(&self) -> Seq<char> {
        self.0@
    }
}

impl PartialEq for MediaGroupId {
    fn eq(&self, o: &MediaGroupId) -> (r: bool) {
        self.0 == o.0
    }
}

impl vstd::std_specs::cmp::PartialEqSpecImpl for MediaGroupId {
    open spec fn obeys_eq_spec() -> bool {
        true
    }

    open spec fn eq_spec(&self, o: &MediaGroupId) -> bool {
        self@ == o@
    }
}

impl Eq for MediaGroupId {}

/// One inbound post of an album.
#[derive(Debug)]
pub struct MessageInfo {
    pub from: i64,
    pub id: i32,
    pub media_group_id: MediaGroupId,
}

impl MessageInfo {
    pub fn new(from: i64, id: i32, media_group_id: MediaGroupId) -> (r: MessageInfo)
        ensures
            r.from == from,
            r.id == id,
            r.media_group_id@ == media_group_id@,
    {
        MessageInfo { from, id, media_group_id }
    }
}

/// What is known of a pending album.
pub struct AlbumState {
    pub from: i64,
    pub ids: Seq<i32>,
    pub last: u64,
}

/// The posts collected so far for one album.
pub struct MediaGroupInfo {
    pub from: i64,
    pub message_ids: Vec<i32>,
    pub last_message_timestamp: u64,
}

impl View for MediaGroupInfo {
    type V = AlbumState;

    open spec fn view(&self) -> AlbumState {
        AlbumState { from: self.from, ids: self.message_ids@, last: self.last_message_timestamp }
    }
}

impl MediaGroupInfo {
    pub fn new(from: i64, now: u64) -> (r: MediaGroupInfo)
        ensures
            r@ == (AlbumState { from, ids: Seq::<i32>::empty(), last: now }),
    {
        MediaGroupInfo { from, message_ids: Vec::new(), last_message_timestamp: now }
    }
}

/// One album ready to be forwarded: its source chat and its posts in ascending order.
pub struct Delivery {
    pub from: i64,
    pub message_ids: Vec<i32>,
}

pub type PlanView = Seq<(Seq<char>, AlbumState)>;

/// No two pending albums share a key.
pub open spec fn keys_unique(plan: PlanView) -> bool {
    forall|i: int, j: int| 0 <= i < plan.len() && 0 <= j < plan.len() && i != j ==> plan[i].0 != plan[j].0
}

pub open spec fn has_key(plan: PlanView, key: Seq<char>) -> bool {
    exists|i: int| 0 <= i < plan.len() && plan[i].0 == key
}

/// The position of the album with key `key`.
pub open spec fn key_index(plan: PlanView, key: Seq<char>) -> int
    recommends
        has_key(plan, key),
{
    choose|i: int| 0 <= i < plan.len() && plan[i].0 == key
}

/// The plan after post `id` of chat `from` arrived at `now` for album `key`.
pub open spec fn ingest_spec(plan: PlanView, key: Seq<char>, from: i64, id: i32, now: u64) -> PlanView {
    if has_key(plan, key) {
        let i = key_index(plan, key);
        plan.update(i, (key, AlbumState { from: plan[i].1.from, ids: plan[i].1.ids.push(id), last: now }))
    } else {
        plan.push((key, AlbumState { from, ids: seq![id], last: now }))
    }
}

/// The albums that are quiet at `now`, in plan order.
pub open spec fn due_albums(plan: PlanView, now: u64) -> PlanView
    decreases plan.len(),
{
    if plan.len() == 0 {
        plan
    } else {
        let rest = due_albums(plan.drop_last(), now);
        if is_quiet(now, plan.last().1.last) {
            rest.push(plan.last())
        } else {
            rest
        }
    }
}

/// The albums that are still collecting posts at `now`, in plan order.
pub open spec fn open_albums(plan: PlanView, now: u64) -> PlanView
    decreases plan.len(),
{
    if plan.len() == 0 {
        plan
    } else {
        let rest = open_albums(plan.drop_last(), now);
        if is_quiet(now, plan.last().1.last) {
            rest
        } else {
            rest.push(plan.last())
        }
    }
}

/// `d` forwards album `a`: same source, the same posts in ascending order.
pub open spec fn delivers(d: (i64, Seq<i32>), a: AlbumState) -> bool {
    d.0 == a.from && sorted_ids(d.1) && d.1.to_multiset() == a.ids.to_multiset()
}

proof fn lemma_open_albums_from_plan(plan: PlanView, now: u64)
    ensures
        forall|k: int| 0 <= k < open_albums(plan, now).len() ==>
            exists|j: int| 0 <= j < plan.len() && #[trigger] open_albums(plan, now)[k] == plan[j],
        forall|k: int| 0 <= k < open_albums(plan, now).len() ==>
            !is_quiet(now, (#[trigger] open_albums(plan, now)[k]).1.last),
        keys_unique(plan) ==> keys_unique(open_albums(plan, now)),
    decreases plan.len(),
{
    if plan.len() > 0 {
        let p = plan.drop_last();
        lemma_open_albums_from_plan(p, now);
        let rest = open_albums(p, now);
        assert forall|k: int| 0 <= k < open_albums(plan, now).len() implies
            exists|j: int| 0 <= j < plan.len() && #[trigger] open_albums(plan, now)[k] == plan[j] by {
            if k < rest.len() {
                let j = choose|j: int| 0 <= j < p.len() && rest[k] == p[j];
                assert(plan[j] == p[j]);
            } else {
                assert(open_albums(plan, now)[k] == plan[plan.len() - 1]);
            }
        }
        if keys_unique(plan) {
            assert(keys_unique(p));
            let o = open_albums(plan, now);
            assert forall|a: int, b: int| 0 <= a < o.len() && 0 <= b < o.len() && a != b implies
                o[a].0 != o[b].0 by {
                if a == rest.len() || b == rest.len() {
                    let other = if a == rest.len() { b } else { a };
                    let j = choose|j: int| 0 <= j < p.len() && rest[other] == p[j];
                    assert(plan[j] == p[j]);
                    assert(j != plan.len() - 1);
                }
            }
        }
    }
}

proof fn lemma_ingest_keeps_keys_unique(plan: PlanView, key: Seq<char>, from: i64, id: i32, now: u64)
    requires
        keys_unique(plan),
    ensures
        keys_unique(ingest_spec(plan, key, from, id, now)),
        has_key(ingest_spec(plan, key, from, id, now), key),
{
    let q = ingest_spec(plan, key, from, id, now);
    if has_key(plan, key) {
        let i = key_index(plan, key);
        assert(q[i].0 == key);
        assert forall|a: int, b: int| 0 <= a < q.len() && 0 <= b < q.len() && a != b implies
            q[a].0 != q[b].0 by {
            assert(q[a].0 == plan[a].0);
            assert(q[b].0 == plan[b].0);
        }
    } else {
        assert(q[plan.len() as int].0 == key);
        assert forall|a: int, b: int| 0 <= a < q.len() && 0 <= b < q.len() && a != b implies
            q[a].0 != q[b].0 by {
            if a < plan.len() && b < plan.len() {
                assert(q[a] == plan[a]);
                assert(q[b] == plan[b]);
            } else if a < plan.len() {
                assert(q[a] == plan[a]);
            } else {
                assert(q[b] == plan[b]);
            }
        }
    }
}

proof fn lemma_key_index_unique(plan: PlanView, key: Seq<char>, j: int)
    requires
        keys_unique(plan),
        0 <= j < plan.len(),
        plan[j].0 == key,
    ensures
        has_key(plan, key),
        key_index(plan, key) == j,
{
    assert(has_key(plan, key));
    let k = key_index(plan, key);
    assert(plan[k].0 == key);
}

/// Every album of `plan` is either due or still open at `now`, as its last post says.
pub proof fn lemma_due_or_open(plan: PlanView, now: u64, i: int)
    requires
        0 <= i < plan.len(),
    ensures
        is_quiet(now, plan[i].1.last) ==> due_albums(plan, now).contains(plan[i]),
        !is_quiet(now, plan[i].1.last) ==> open_albums(plan, now).contains(plan[i]),
    decreases plan.len(),
{
    let p = plan.drop_last();
    if i < plan.len() - 1 {
        lemma_due_or_open(p, now, i);
        assert(plan[i] == p[i]);
        if is_quiet(now, plan[i].1.last) {
            let d = due_albums(p, now);
            let k = choose|k: int| 0 <= k < d.len() && d[k] == p[i];
            assert(due_albums(plan, now)[k] == d[k]);
        } else {
            let o = open_albums(p, now);
            let k = choose|k: int| 0 <= k < o.len() && o[k] == p[i];
            assert(open_albums(plan, now)[k] == o[k]);
        }
    } else {
        assert(plan[i] == plan.last());
        if is_quiet(now, plan[i].1.last) {
            let d = due_albums(plan, now);
            assert(d[d.len() - 1] == plan[i]);
        } else {
            let o = open_albums(plan, now);
            assert(o[o.len() - 1] == plan[i]);
        }
    }
}

/// A scan leaves no album that it would deliver again: a second scan at the same
/// time delivers nothing.
pub proof fn lemma_delivered_once(plan: PlanView, now: u64)
    ensures
        due_albums(open_albums(plan, now), now).len() == 0,
{
    lemma_open_albums_from_plan(plan, now);
    lemma_nothing_due(open_albums(plan, now), now);
}

proof fn lemma_nothing_due(plan: PlanView, now: u64)
    requires
        forall|k: int| 0 <= k < plan.len() ==> !is_quiet(now, (#[trigger] plan[k]).1.last),
    ensures
        due_albums(plan, now).len() == 0,
    decreases plan.len(),
{
    if plan.len() > 0 {
        assert(plan.last() == plan[plan.len() - 1]);
        lemma_nothing_due(plan.drop_last(), now);
    }
}

/// The plan after the posts of `posts` (album key, source chat, post id, arrival
/// time) arrived in order.
pub open spec fn ingest_all(plan: PlanView, posts: Seq<(Seq<char>, i64, i32, u64)>) -> PlanView
    decreases posts.len(),
{
    if posts.len() == 0 {
        plan
    } else {
        let (key, from, id, now) = posts.last();
        ingest_spec(ingest_all(plan, posts.drop_last()), key, from, id, now)
    }
}

/// The ids of the posts of album `key` among `posts`, in arrival order.
pub open spec fn ids_for(posts: Seq<(Seq<char>, i64, i32, u64)>, key: Seq<char>) -> Seq<i32>
    decreases posts.len(),
{
    if posts.len() == 0 {
        Seq::empty()
    } else {
        let rest = ids_for(posts.drop_last(), key);
        if posts.last().0 == key {
            rest.push(posts.last().2)
        } else {
            rest
        }
    }
}

/// However the posts of an album interleave with those of other albums, while no
/// scan takes it out its entry holds every one of its post ids, each once, in
/// arrival order; a scan at `scan` hands that entry out whole once it is quiet,
/// and keeps it whole before.
pub proof fn lemma_album_collects_posts(
    plan: PlanView,
    posts: Seq<(Seq<char>, i64, i32, u64)>,
    key: Seq<char>,
    scan: u64,
)
    requires
        keys_unique(plan),
        !has_key(plan, key),
    ensures
        keys_unique(ingest_all(plan, posts)),
        has_key(ingest_all(plan, posts), key) == (ids_for(posts, key).len() > 0),
        has_key(ingest_all(plan, posts), key) ==> ({
            let q = ingest_all(plan, posts);
            let entry = q[key_index(q, key)];
            &&& entry.1.ids == ids_for(posts, key)
            &&& is_quiet(scan, entry.1.last) ==> due_albums(q, scan).contains(entry)
            &&& !is_quiet(scan, entry.1.last) ==> open_albums(q, scan).contains(entry)
        }),
    decreases posts.len(),
{
    lemma_album_collects_posts_ids(plan, posts, key);
    let q = ingest_all(plan, posts);
    if has_key(q, key) {
        let i = key_index(q, key);
        assert(0 <= i < q.len() && q[i].0 == key);
        lemma_due_or_open(q, scan, i);
    }
}

proof fn lemma_album_collects_posts_ids(
    plan: PlanView,
    posts: Seq<(Seq<char>, i64, i32, u64)>,
    key: Seq<char>,
)
    requires
        keys_unique(plan),
        !has_key(plan, key),
    ensures
        keys_unique(ingest_all(plan, posts)),
        has_key(ingest_all(plan, posts), key) == (ids_for(posts, key).len() > 0),
        has_key(ingest_all(plan, posts), key) ==> ingest_all(plan, posts)[key_index(
            ingest_all(plan, posts),
            key,
        )].1.ids == ids_for(posts, key),
    decreases posts.len(),
{
    if posts.len() > 0 {
        let prev = posts.drop_last();
        lemma_album_collects_posts_ids(plan, prev, key);
        let q0 = ingest_all(plan, prev);
        let (k, from, id, t) = posts.last();
        let q = ingest_spec(q0, k, from, id, t);
        assert(q == ingest_all(plan, posts));
        lemma_ingest_keeps_keys_unique(q0, k, from, id, t);
        if k == key {
            if has_key(q0, key) {
                let i = key_index(q0, key);
                lemma_key_index_unique(q, key, i);
            } else {
                lemma_key_index_unique(q, key, q0.len() as int);
                assert(ids_for(prev, key) =~= Seq::<i32>::empty());
                assert(ids_for(posts, key) =~= seq![id]);
            }
        } else {
            if has_key(q0, key) {
                let j = key_index(q0, key);
                if has_key(q0, k) {
                    assert(key_index(q0, k) != j);
                }
                assert(q[j] == q0[j]);
                lemma_key_index_unique(q, key, j);
            } else {
                assert(!has_key(q, key)) by {
                    if has_key(q, key) {
                        let j = choose|j: int| 0 <= j < q.len() && q[j].0 == key;
                        if j < q0.len() {
                            if has_key(q0, k) {
                                assert(q[j].0 == q0[j].0);
                            } else {
                                assert(q[j] == q0[j]);
                            }
                        }
                    }
                }
            }
        }
    }
}

/// Two posts of one album go out as two units where a scan comes between them
/// once the first has been quiet for the threshold: the scan delivers the first
/// alone and forgets the album, and the second opens it anew.
pub proof fn lemma_quiet_gap_splits(
    plan: PlanView,
    key: Seq<char>,
    first: (i64, i32, u64),
    scan: u64,
    second: (i64, i32, u64),
)
    requires
        keys_unique(plan),
        !has_key(plan, key),
        is_quiet(scan, first.2),
    ensures
        ({
            let after_first = ingest_spec(plan, key, first.0, first.1, first.2);
            let after_second = ingest_spec(open_albums(after_first, scan), key, second.0, second.1, second.2);
            &&& due_albums(after_first, scan).contains(
                (key, AlbumState { from: first.0, ids: seq![first.1], last: first.2 }),
            )
            &&& !has_key(open_albums(after_first, scan), key)
            &&& keys_unique(after_second)
            &&& has_key(after_second, key)
            &&& after_second[key_index(after_second, key)].1.ids == seq![second.1]
        }),
{
    let after_first = ingest_spec(plan, key, first.0, first.1, first.2);
    let n = plan.len() as int;
    assert(after_first[n] == (key, AlbumState { from: first.0, ids: seq![first.1], last: first.2 }));
    lemma_ingest_keeps_keys_unique(plan, key, first.0, first.1, first.2);
    lemma_due_or_open(after_first, scan, n);
    lemma_open_albums_from_plan(after_first, scan);
    let o = open_albums(after_first, scan);
    assert(!has_key(o, key)) by {
        if has_key(o, key) {
            let k = choose|k: int| 0 <= k < o.len() && o[k].0 == key;
            let j = choose|j: int| 0 <= j < after_first.len() && #[trigger] o[k] == after_first[j];
            lemma_key_index_unique(after_first, key, j);
            lemma_key_index_unique(after_first, key, n);
            assert(!is_quiet(scan, o[k].1.last));
        }
    }
    lemma_ingest_keeps_keys_unique(o, key, second.0, second.1, second.2);
    let after_second = ingest_spec(o, key, second.0, second.1, second.2);
    lemma_key_index_unique(after_second, key, o.len() as int);
}

pub(crate) fn copy_ids(v: &Vec<i32>) -> (out: Vec<i32>)
    ensures
        out@ == v@,
{
    let mut out: Vec<i32> = Vec::new();
    let mut i: usize = 0;
    while i < v.len()
        invariant
            i <= v@.len(),
            out@ == v@.take(i as int),
        decreases v@.len() - i,
    {
        out.push(v[i]);
        i = i + 1;
        assert(out@ =~= v@.take(i as int));
    }
    assert(out@ =~= v@);
    out
}

/// Relies on slice::sort: the same elements, in ascending order.
#[verifier::external_body]
fn sort_ids(v: &mut Vec<i32>)
    ensures
        sorted_ids(final(v)@),
        final(v)@.to_multiset() == old(v)@.to_multiset(),
{
    v.sort();
}

/// The pending albums, in the order in which their first post arrived.
pub struct MessageSender {
    send_plan: Vec<(MediaGroupId, MediaGroupInfo)>,
}

impl MessageSender {
    pub closed spec fn plan(&self) -> PlanView {
        self.send_plan@.map_values(|e: (MediaGroupId, MediaGroupInfo)| (e.0@, e.1@))
    }

    pub open spec fn wf(&self) -> bool {
        keys_unique(self.plan())
    }

    pub fn new() -> (r: MessageSender)
        ensures
            r.wf(),
            r.plan() == Seq::<(Seq<char>, AlbumState)>::empty(),
    {
        let r = MessageSender { send_plan: Vec::new() };
        assert(r.plan() =~= Seq::<(Seq<char>, AlbumState)>::empty());
        r
    }

    /// The number of albums still collecting posts.
    pub fn pending(&self) -> (n: usize)
        ensures
            n == self.plan().len(),
    {
        self.send_plan.len()
    }

    /// Adds post `info` to its album, which is opened if it is not pending yet,
    /// and marks the album as touched at `now`.
    pub fn ingest(&mut self, info: MessageInfo, now: u64)
        requires
            old(self).wf(),
        ensures
            final(self).wf(),
            final(self).plan() == ingest_spec(
                old(self).plan(),
                info.media_group_id@,
                info.from,
                info.id,
                now,
            ),
    {
        let ghost key = info.media_group_id@;
        let ghost before = self.plan();
        proof {
            lemma_ingest_keeps_keys_unique(before, key, info.from, info.id, now);
        }
        let mut i: usize = 0;
        while i < self.send_plan.len()
            invariant
                i <= self.send_plan@.len(),
                self.plan() == before,
                self.send_plan@.len() == before.len(),
                key == info.media_group_id@,
                keys_unique(before),
                before == old(self).plan(),
                forall|j: int| 0 <= j < i ==> before[j].0 != key,
            decreases self.send_plan@.len() - i,
        {
            assert(before[i as int] == (self.send_plan@[i as int].0@, self.send_plan@[i as int].1@));
            if self.send_plan[i].0.0 == info.media_group_id.0 {
                assert(before[i as int].0 == key);
                assert(has_key(before, key));
                assert(key_index(before, key) == i) by {
                    let k = key_index(before, key);
                    assert(before[k].0 == key);
                }
                let (group_id, mut group) = self.send_plan.remove(i);
                group.last_message_timestamp = now;
                group.message_ids.push(info.id);
                self.send_plan.insert(i, (group_id, group));
                assert(self.plan() =~= ingest_spec(before, key, info.from, info.id, now));
                return;
            }
            i = i + 1;
        }
        assert(!has_key(before, key));
        let mut group = MediaGroupInfo::new(info.from, now);
        group.message_ids.push(info.id);
        self.send_plan.push((info.media_group_id, group));
        assert(group.message_ids@ =~= seq![info.id]);
        assert(self.plan() =~= ingest_spec(before, key, info.from, info.id, now));
    }

    /// Takes out every album that is quiet at `now`, each as one delivery with its
    /// posts in ascending order; the others stay pending.
    pub fn take_due(&mut self, now: u64) -> (r: Vec<Delivery>)
        requires
            old(self).wf(),
        ensures
            final(self).wf(),
            final(self).plan() == open_albums(old(self).plan(), now),
            r@.len() == due_albums(old(self).plan(), now).len(),
            forall|k: int| 0 <= k < r@.len() ==> delivers(
                (#[trigger] r@[k].from, r@[k].message_ids@),
                due_albums(old(self).plan(), now)[k].1,
            ),
    {
        let ghost before = self.plan();
        let mut due: Vec<Delivery> = Vec::new();
        let mut kept: Vec<(MediaGroupId, MediaGroupInfo)> = Vec::new();
        let mut i: usize = 0;
        while i < self.send_plan.len()
            invariant
                i <= self.send_plan@.len(),
                self.plan() == before,
                self.send_plan@.len() == before.len(),
                kept@.map_values(|e: (MediaGroupId, MediaGroupInfo)| (e.0@, e.1@)) == open_albums(
                    before.take(i as int),
                    now,
                ),
                due@.len() == due_albums(before.take(i as int), now).len(),
                forall|k: int| 0 <= k < due@.len() ==> delivers(
                    (#[trigger] due@[k].from, due@[k].message_ids@),
                    due_albums(before.take(i as int), now)[k].1,
                ),
            decreases self.send_plan@.len() - i,
        {
            assert(before.take(i + 1).drop_last() =~= before.take(i as int));
            assert(before.take(i + 1).last() == before[i as int]);
            assert(before[i as int] == (self.send_plan@[i as int].0@, self.send_plan@[i as int].1@));
            let entry = &self.send_plan[i];
            let last = entry.1.last_message_timestamp;
            if now >= last && now - last >= MESSAGE_SEND_DELAY_SECONDS {
                let mut ids = copy_ids(&entry.1.message_ids);
                sort_ids(&mut ids);
                due.push(Delivery { from: entry.1.from, message_ids: ids });
            } else {
                let ids = copy_ids(&entry.1.message_ids);
                let group = MediaGroupInfo {
                    from: entry.1.from,
                    message_ids: ids,
                    last_message_timestamp: last,
                };
                kept.push((MediaGroupId(entry.0.0.clone()), group));
                assert(kept@.map_values(|e: (MediaGroupId, MediaGroupInfo)| (e.0@, e.1@))
                    =~= open_albums(before.take(i + 1), now));
            }
            i = i + 1;
        }
        assert(before.take(before.len() as int) =~= before);
        proof {
            lemma_open_albums_from_plan(before, now);
        }
        self.send_plan = kept;
        due
    }
}

#[verifier::external_type_specification]
#[verifier::external_body]
pub struct ExSystemTimeError(std::time::SystemTimeError);

pub assume_specification[ core::time::Duration::as_secs ](d: &core::time::Duration) -> u64;

/// Relies on SystemTime::elapsed, called on UNIX_EPOCH: the time since the epoch,
/// or an error where the system clock stands before it.
#[verifier::external_body]
fn elapsed_since_epoch() -> (r: Result<core::time::Duration, std::time::SystemTimeError>) {
    std::time::UNIX_EPOCH.elapsed()
}

/// Whole seconds since the Unix epoch by the system clock; 0 where the clock
/// stands before the epoch.
pub fn seconds_since_unix_epoch() -> u64 {
    match elapsed_since_epoch() {
        Ok(d) => d.as_secs(),
        Err(_) => 0,
    }
}

} // verus!
