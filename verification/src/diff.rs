//! Comparing manifests: what has to be done so that a server holds what a client holds.

use vstd::hash_map::StringHashMap;
use vstd::prelude::*;
use crate::bytes;
use crate::manifest;
use crate::manifest::{EntryView, FileEntry, Manifest};

verus! {

/// What becomes of a file.
#[derive(Debug, Clone, Copy, PartialEq, Eq, Structural)]
pub enum SyncAction {
    /// The server has no such file: it is sent whole.
    SendFull,
    /// The server has another version: the difference is sent.
    SendDelta,
    /// The server has the same file.
    Skip,
    /// The client has no such file: the server's goes.
    Delete,
}

#[derive(Debug)]
pub struct SyncItem {
    pub path: String,
    pub action: SyncAction,
}

/// An item, with its path as a sequence.
#[verifier::ext_equal]
pub struct ItemView {
    pub path: Seq<char>,
    pub action: SyncAction,
}

impl View for SyncItem {
    type V = ItemView;

    open spec fn view(&self) -> ItemView {
        ItemView { path: self.path@, action: self.action }
    }
}

pub open spec fn views(items: Seq<SyncItem>) -> Seq<ItemView> {
    Seq::new(items.len(), |i: int| items[i]@)
}

impl SyncItem {
    pub fn new(path: String, action: SyncAction) -> (res: Self)
        ensures
            res == (SyncItem { path, action }),
    {
        SyncItem { path, action }
    }
}

impl Clone for SyncItem {
    fn clone(&self) -> (res: Self)
        ensures
            res@ == self@,
    {
        SyncItem { path: self.path.clone(), action: self.action }
    }
}

/// The last entry with this path.
pub open spec fn last_with_path(entries: Seq<EntryView>, path: Seq<char>) -> Option<EntryView>
    decreases entries.len(),
{
    if entries.len() == 0 {
        None
    } else if entries.last().path == path {
        Some(entries.last())
    } else {
        last_with_path(entries.drop_last(), path)
    }
}

/// Whether two entries stand for the same content: their sizes agree, and so do their
/// checksums; where one has no checksum the times of change decide.
pub open spec fn same_content(a: EntryView, b: EntryView) -> bool {
    a.size == b.size && match (a.checksum, b.checksum) {
        (Some(x), Some(y)) => x == y,
        _ => a.modified == b.modified,
    }
}

/// What becomes of a file of the client.
pub open spec fn action_for(entry: EntryView, server: Seq<EntryView>) -> SyncAction {
    match last_with_path(server, entry.path) {
        None => SyncAction::SendFull,
        Some(found) => if same_content(entry, found) {
            SyncAction::Skip
        } else {
            SyncAction::SendDelta
        },
    }
}

/// What becomes of the files of the client.
pub open spec fn client_items(client: Seq<EntryView>, server: Seq<EntryView>) -> Seq<ItemView>
    decreases client.len(),
{
    if client.len() == 0 {
        Seq::empty()
    } else {
        let before = client_items(client.drop_last(), server);
        let entry = client.last();
        if entry.is_dir {
            before
        } else {
            before.push(ItemView { path: entry.path, action: action_for(entry, server) })
        }
    }
}

/// The files of the server that go.
pub open spec fn deletions(server: Seq<EntryView>, client: Seq<EntryView>) -> Seq<ItemView>
    decreases server.len(),
{
    if server.len() == 0 {
        Seq::empty()
    } else {
        let before = deletions(server.drop_last(), client);
        let entry = server.last();
        if entry.is_dir || last_with_path(client, entry.path) is Some {
            before
        } else {
            before.push(ItemView { path: entry.path, action: SyncAction::Delete })
        }
    }
}

/// What has to be done so that the server holds what the client holds.
pub open spec fn difference(client: Seq<EntryView>, server: Seq<EntryView>) -> Seq<ItemView> {
    client_items(client, server) + deletions(server, client)
}

/// What is to be done with files.
#[derive(Debug)]
pub struct SyncPlan {
    pub items: Vec<SyncItem>,
}

/// How many items have this action.
pub open spec fn count_of(items: Seq<ItemView>, action: SyncAction) -> nat
    decreases items.len(),
{
    if items.len() == 0 {
        0
    } else {
        count_of(items.drop_last(), action) + (if items.last().action == action {
            1nat
        } else {
            0
        })
    }
}

/// The name of an action.
pub open spec fn action_name(action: SyncAction) -> Seq<char> {
    match action {
        SyncAction::SendFull => "SendFull"@,
        SyncAction::SendDelta => "SendDelta"@,
        SyncAction::Skip => "Skip"@,
        SyncAction::Delete => "Delete"@,
    }
}

/// Whether `counts` says of every action that occurs how often it does, and of no other.
pub open spec fn counts_actions(counts: Map<Seq<char>, usize>, items: Seq<ItemView>) -> bool {
    &&& forall|action: SyncAction|
        {
            &&& #[trigger] counts.contains_key(action_name(action)) <==> count_of(items, action) > 0
            &&& count_of(items, action) > 0 ==> counts[action_name(action)] == count_of(
                items,
                action,
            )
        }
    &&& forall|name: Seq<char>| #[trigger]
        counts.contains_key(name) ==> exists|action: SyncAction| #[trigger] action_name(action)
            == name
}

proof fn lemma_names_differ(a: SyncAction, b: SyncAction)
    ensures
        action_name(a) == action_name(b) ==> a == b,
{
    reveal_strlit("SendFull");
    reveal_strlit("SendDelta");
    reveal_strlit("Skip");
    reveal_strlit("Delete");
    if action_name(a) == action_name(b) {
        assert(action_name(a).len() == action_name(b).len());
        assert(action_name(a)[0] == action_name(b)[0]);
    }
}

proof fn lemma_count_bound(items: Seq<ItemView>, action: SyncAction)
    ensures
        count_of(items, action) <= items.len(),
    decreases items.len(),
{
    if items.len() > 0 {
        lemma_count_bound(items.drop_last(), action);
    }
}

impl SyncPlan {
    /// The items, in order.
    pub open spec fn listed(&self) -> Seq<ItemView> {
        views(self.items@)
    }

    pub fn new(items: Vec<SyncItem>) -> (res: Self)
        ensures
            res.items == items,
    {
        SyncPlan { items }
    }

    pub fn empty() -> (res: Self)
        ensures
            res.items@.len() == 0,
    {
        SyncPlan { items: Vec::new() }
    }

    pub fn len(&self) -> (res: usize)
        ensures
            res == self.items@.len(),
    {
        self.items.len()
    }

    pub fn is_empty(&self) -> (res: bool)
        ensures
            res == (self.items@.len() == 0),
    {
        self.items.len() == 0
    }

    /// How often each action occurs, by its name.
    pub fn count_by_action(&self) -> (counts: StringHashMap<usize>)
        ensures
            counts_actions(counts@, self.listed()),
    {
        let ghost all = self.listed();
        let mut counts: StringHashMap<usize> = StringHashMap::new();
        let mut i: usize = 0;
        assert(all.take(0) =~= Seq::empty());
        while i < self.items.len()
            invariant
                i <= self.items@.len(),
                all == self.listed(),
                counts_actions(counts@, all.take(i as int)),
            decreases self.items@.len() - i,
        {
            let action: SyncAction = self.items[i].action;
            let name: &str = match action {
                SyncAction::SendFull => "SendFull",
                SyncAction::SendDelta => "SendDelta",
                SyncAction::Skip => "Skip",
                SyncAction::Delete => "Delete",
            };
            let ghost done = all.take(i as int);
            let ghost before = counts@;
            proof {
                lemma_count_bound(done, action);
                assert(before.contains_key(action_name(action)) <==> count_of(done, action) > 0);
            }
            let count: usize = match counts.get(name) {
                Some(count) => *count,
                None => 0,
            };
            counts.insert(name.to_owned(), count + 1);
            proof {
                let next = all.take(i + 1);
                assert(next.drop_last() =~= done);
                assert(next.last().action == action);
                assert forall|other: SyncAction|
                    {
                        &&& #[trigger] counts@.contains_key(action_name(other)) <==> count_of(
                            next,
                            other,
                        ) > 0
                        &&& count_of(next, other) > 0 ==> counts@[action_name(other)] == count_of(
                            next,
                            other,
                        )
                    } by {
                    lemma_names_differ(action, other);
                    assert(before.contains_key(action_name(other)) <==> count_of(done, other) > 0);
                }
                assert forall|n: Seq<char>| #[trigger] counts@.contains_key(n) implies exists|
                    other: SyncAction,
                | #[trigger] action_name(other) == n by {
                    if n != action_name(action) {
                        assert(before.contains_key(n));
                    }
                }
            }
            i = i + 1;
        }
        assert(all.take(i as int) =~= all);
        counts
    }
}

impl Clone for SyncPlan {
    fn clone(&self) -> (res: Self)
        ensures
            res.listed() == self.listed(),
    {
        let mut items: Vec<SyncItem> = Vec::new();
        let mut i: usize = 0;
        assert(views(items@) =~= self.listed().take(0));
        while i < self.items.len()
            invariant
                i <= self.items@.len(),
                views(items@) == self.listed().take(i as int),
            decreases self.items@.len() - i,
        {
            let ghost before = views(items@);
            let item: SyncItem = self.items[i].clone();
            let ghost shown = item@;
            items.push(item);
            proof {
                assert(views(items@) =~= before.push(shown));
                assert(self.listed().take(i + 1) =~= self.listed().take(i as int).push(shown));
            }
            i = i + 1;
        }
        assert(self.listed().take(i as int) =~= self.listed());
        SyncPlan { items }
    }
}

/// Whether `places` leads from every path that occurs to the last entry with it.
spec fn holds_places(places: Map<Seq<char>, usize>, entries: Seq<EntryView>) -> bool {
    forall|path: Seq<char>|
        #![trigger places.contains_key(path)]
        #![trigger last_with_path(entries, path)]
        {
            &&& places.contains_key(path) <==> last_with_path(entries, path) is Some
            &&& places.contains_key(path) ==> places[path] < entries.len() && Some(
                entries[places[path] as int],
            ) == last_with_path(entries, path)
        }
}

/// The last entry with each path.
fn index_by_path(entries: &Vec<FileEntry>) -> (places: StringHashMap<usize>)
    ensures
        holds_places(places@, manifest::views(entries@)),
{
    let ghost all = manifest::views(entries@);
    let mut places: StringHashMap<usize> = StringHashMap::new();
    let mut i: usize = 0;
    assert(all.take(0) =~= Seq::empty());
    while i < entries.len()
        invariant
            i <= entries@.len(),
            all == manifest::views(entries@),
            holds_places(places@, all.take(i as int)),
        decreases entries@.len() - i,
    {
        let ghost before = places@;
        let ghost done = all.take(i as int);
        places.insert(entries[i].path.clone(), i);
        proof {
            let next = all.take(i + 1);
            assert(next.drop_last() =~= done);
            assert forall|path: Seq<char>|
                #![trigger places@.contains_key(path)]
                #![trigger last_with_path(next, path)]
                {
                    &&& places@.contains_key(path) <==> last_with_path(next, path) is Some
                    &&& places@.contains_key(path) ==> places@[path] < next.len() && Some(
                        next[places@[path] as int],
                    ) == last_with_path(next, path)
                } by {
                assert(before.contains_key(path) <==> last_with_path(done, path) is Some);
            }
        }
        i = i + 1;
    }
    assert(all.take(i as int) =~= all);
    places
}

/// Whether two entries stand for the same content.
pub fn is_same_content(a: &FileEntry, b: &FileEntry) -> (res: bool)
    ensures
        res == same_content(a@, b@),
{
    a.size == b.size && match (&a.checksum, &b.checksum) {
        (Some(x), Some(y)) => bytes::same_bytes(x.as_slice(), y.as_slice()),
        _ => a.modified == b.modified,
    }
}

/// What has to be done so that the server holds what the client holds: first what becomes of
/// the files of the client, in order, then the files of the server that go. Directories are
/// left out.
pub fn diff(client_manifest: &Manifest, server_manifest: &Manifest) -> (plan: SyncPlan)
    ensures
        plan.listed() == difference(client_manifest.listed(), server_manifest.listed()),
{
    let client: &Vec<FileEntry> = &client_manifest.entries;
    let server: &Vec<FileEntry> = &server_manifest.entries;
    let ghost c = client_manifest.listed();
    let ghost s = server_manifest.listed();
    let server_places: StringHashMap<usize> = index_by_path(server);
    let client_places: StringHashMap<usize> = index_by_path(client);
    let mut items: Vec<SyncItem> = Vec::new();
    let mut i: usize = 0;
    assert(c.take(0) =~= Seq::empty());
    assert(views(items@) =~= client_items(c.take(0), s));
    while i < client.len()
        invariant
            i <= client@.len(),
            c == manifest::views(client@),
            s == manifest::views(server@),
            holds_places(server_places@, s),
            views(items@) == client_items(c.take(i as int), s),
        decreases client@.len() - i,
    {
        let entry: &FileEntry = &client[i];
        proof {
            assert(c.take(i + 1).drop_last() =~= c.take(i as int));
            assert(server_places@.contains_key(entry.path@) <==> last_with_path(
                s,
                entry.path@,
            ) is Some);
        }
        if !entry.is_dir {
            let action: SyncAction = match server_places.get(entry.path.as_str()) {
                None => SyncAction::SendFull,
                Some(place) => {
                    if is_same_content(entry, &server[*place]) {
                        SyncAction::Skip
                    } else {
                        SyncAction::SendDelta
                    }
                },
            };
            let ghost before = views(items@);
            items.push(SyncItem::new(entry.path.clone(), action));
            assert(views(items@) =~= before.push(ItemView { path: entry.path@, action }));
        }
        i = i + 1;
    }
    assert(c.take(i as int) =~= c);
    let mut j: usize = 0;
    assert(s.take(0) =~= Seq::empty());
    assert(views(items@) =~= client_items(c, s) + deletions(s.take(0), c));
    while j < server.len()
        invariant
            j <= server@.len(),
            c == manifest::views(client@),
            s == manifest::views(server@),
            holds_places(client_places@, c),
            views(items@) == client_items(c, s) + deletions(s.take(j as int), c),
        decreases server@.len() - j,
    {
        let entry: &FileEntry = &server[j];
        proof {
            assert(s.take(j + 1).drop_last() =~= s.take(j as int));
            assert(client_places@.contains_key(entry.path@) <==> last_with_path(
                c,
                entry.path@,
            ) is Some);
        }
        if !entry.is_dir && !client_places.contains_key(entry.path.as_str()) {
            let ghost before = views(items@);
            items.push(SyncItem::new(entry.path.clone(), SyncAction::Delete));
            assert(views(items@) =~= before.push(
                ItemView { path: entry.path@, action: SyncAction::Delete },
            ));
            assert(views(items@) =~= client_items(c, s) + deletions(s.take(j + 1), c));
        }
        j = j + 1;
    }
    assert(s.take(j as int) =~= s);
    SyncPlan::new(items)
}

/// Whether two entries have the same path, size and time of change.
pub open spec fn looks_same(a: EntryView, b: EntryView) -> bool {
    a.path == b.path && a.size == b.size && a.modified == b.modified
}

/// Whether two manifests look the same at a glance: their hashes agree, or else all their
/// entries look the same, one by one.
pub fn diff_quick_check(client_manifest: &Manifest, server_manifest: &Manifest) -> (res: bool)
    ensures
        ({
            let c = client_manifest.listed();
            let s = server_manifest.listed();
            res == (client_manifest.root_hash == server_manifest.root_hash || (c.len() == s.len()
                && forall|i: int| 0 <= i < c.len() ==> looks_same(#[trigger] c[i], s[i])))
        }),
{
    let ghost c = client_manifest.listed();
    let ghost s = server_manifest.listed();
    if client_manifest.root_hash == server_manifest.root_hash {
        return true;
    }
    if client_manifest.entries.len() != server_manifest.entries.len() {
        return false;
    }
    let mut i: usize = 0;
    while i < client_manifest.entries.len()
        invariant
            i <= client_manifest.entries@.len() == server_manifest.entries@.len(),
            c == client_manifest.listed(),
            s == server_manifest.listed(),
            client_manifest.root_hash != server_manifest.root_hash,
            forall|j: int| 0 <= j < i ==> looks_same(#[trigger] c[j], s[j]),
        decreases client_manifest.entries@.len() - i,
    {
        let a: &FileEntry = &client_manifest.entries[i];
        let b: &FileEntry = &server_manifest.entries[i];
        if a.path != b.path || a.size != b.size || a.modified != b.modified {
            assert(!looks_same(c[i as int], s[i as int]));
            return false;
        }
        i = i + 1;
    }
    true
}

/// The items whose action is among `include_actions`.
pub fn filter_sync_plan(plan: &SyncPlan, include_actions: &[SyncAction]) -> (res: SyncPlan)
    ensures
        res.listed() == plan.listed().filter(
            |item: ItemView| include_actions@.contains(item.action),
        ),
{
    let ghost all = plan.listed();
    let ghost wanted = |item: ItemView| include_actions@.contains(item.action);
    let mut items: Vec<SyncItem> = Vec::new();
    let mut i: usize = 0;
    proof {
        reveal(Seq::filter);
        assert(all.take(0) =~= Seq::empty());
        assert(views(items@) =~= all.take(0).filter(wanted));
    }
    while i < plan.items.len()
        invariant
            i <= plan.items@.len(),
            all == plan.listed(),
            wanted == (|item: ItemView| include_actions@.contains(item.action)),
            views(items@) == all.take(i as int).filter(wanted),
        decreases plan.items@.len() - i,
    {
        proof {
            reveal(Seq::filter);
            assert(all.take(i + 1).drop_last() =~= all.take(i as int));
        }
        if includes(include_actions, plan.items[i].action) {
            let ghost before = views(items@);
            let item: SyncItem = plan.items[i].clone();
            let ghost shown = item@;
            items.push(item);
            assert(views(items@) =~= before.push(shown));
        }
        i = i + 1;
    }
    assert(all.take(i as int) =~= all);
    SyncPlan::new(items)
}

fn includes(actions: &[SyncAction], action: SyncAction) -> (res: bool)
    ensures
        res == actions@.contains(action),
{
    let mut i: usize = 0;
    while i < actions.len()
        invariant
            i <= actions@.len(),
            forall|j: int| 0 <= j < i ==> #[trigger] actions@[j] != action,
        decreases actions@.len() - i,
    {
        if actions[i] == action {
            return true;
        }
        i = i + 1;
    }
    false
}

/// Whether a file is sent, whole or in part.
pub open spec fn is_sent(item: ItemView) -> bool {
    item.action == SyncAction::SendFull || item.action == SyncAction::SendDelta
}

/// The texts of a list of strings.
pub open spec fn texts(list: Seq<String>) -> Seq<Seq<char>> {
    Seq::new(list.len(), |i: int| list[i]@)
}

/// The paths of items.
pub open spec fn paths(items: Seq<ItemView>) -> Seq<Seq<char>> {
    Seq::new(items.len(), |i: int| items[i].path)
}

/// The paths of the files that are sent.
pub fn get_files_to_sync(plan: &SyncPlan) -> (res: Vec<String>)
    ensures
        texts(res@) == paths(plan.listed().filter(|item: ItemView| is_sent(item))),
{
    let ghost all = plan.listed();
    let ghost sent = |item: ItemView| is_sent(item);
    let mut files: Vec<String> = Vec::new();
    let mut i: usize = 0;
    proof {
        reveal(Seq::filter);
        assert(all.take(0) =~= Seq::empty());
        assert(texts(files@) =~= paths(all.take(0).filter(sent)));
    }
    while i < plan.items.len()
        invariant
            i <= plan.items@.len(),
            all == plan.listed(),
            sent == (|item: ItemView| is_sent(item)),
            texts(files@) == paths(all.take(i as int).filter(sent)),
        decreases plan.items@.len() - i,
    {
        let ghost kept = all.take(i as int).filter(sent);
        proof {
            reveal(Seq::filter);
            assert(all.take(i + 1).drop_last() =~= all.take(i as int));
        }
        let action: SyncAction = plan.items[i].action;
        if action == SyncAction::SendFull || action == SyncAction::SendDelta {
            let ghost before = texts(files@);
            let path: String = plan.items[i].path.clone();
            let ghost shown = path@;
            files.push(path);
            proof {
                assert(texts(files@) =~= before.push(shown));
                assert(paths(kept.push(all[i as int])) =~= paths(kept).push(shown));
            }
        }
        i = i + 1;
    }
    assert(all.take(i as int) =~= all);
    files
}

/// Whether the list names a file with this path.
pub open spec fn has_file(entries: Seq<EntryView>, path: Seq<char>) -> bool {
    exists|i: int|
        0 <= i < entries.len() && !(#[trigger] entries[i]).is_dir && entries[i].path == path
}

/// Whether the list names a directory with this path.
pub open spec fn has_dir(entries: Seq<EntryView>, path: Seq<char>) -> bool {
    exists|i: int|
        0 <= i < entries.len() && (#[trigger] entries[i]).is_dir && entries[i].path == path
}

proof fn lemma_last_with_path(entries: Seq<EntryView>, path: Seq<char>)
    ensures
        last_with_path(entries, path) is Some <==> has_file(entries, path) || has_dir(entries, path),
        last_with_path(entries, path) matches Some(found) ==> found.path == path
            && entries.contains(found),
    decreases entries.len(),
{
    if entries.len() > 0 {
        let front = entries.drop_last();
        lemma_last_with_path(front, path);
        if entries.last().path == path {
            assert(entries[entries.len() - 1] == entries.last());
        } else {
            if last_with_path(front, path) is Some {
                let found = last_with_path(front, path)->0;
                let i = choose|i: int| 0 <= i < front.len() && front[i] == found;
                assert(entries[i] == found);
            }
            if has_file(entries, path) {
                let i = choose|i: int|
                    0 <= i < entries.len() && !(#[trigger] entries[i]).is_dir && entries[i].path
                        == path;
                assert(front[i] == entries[i]);
            }
            if has_dir(entries, path) {
                let i = choose|i: int|
                    0 <= i < entries.len() && (#[trigger] entries[i]).is_dir && entries[i].path
                        == path;
                assert(front[i] == entries[i]);
            }
        }
    }
}

proof fn lemma_client_items(client: Seq<EntryView>, server: Seq<EntryView>, item: ItemView)
    ensures
        client_items(client, server).contains(item) <==> exists|i: int|
            0 <= i < client.len() && !(#[trigger] client[i]).is_dir && item == (ItemView {
                path: client[i].path,
                action: action_for(client[i], server),
            }),
    decreases client.len(),
{
    let all = client_items(client, server);
    if client.len() > 0 {
        let front = client.drop_last();
        let before = client_items(front, server);
        lemma_client_items(front, server, item);
        if all.contains(item) {
            let k = choose|k: int| 0 <= k < all.len() && all[k] == item;
            if k < before.len() {
                assert(before[k] == item);
                let i = choose|i: int|
                    0 <= i < front.len() && !(#[trigger] front[i]).is_dir && item == (ItemView {
                        path: front[i].path,
                        action: action_for(front[i], server),
                    });
                assert(client[i] == front[i]);
            } else {
                assert(client[client.len() - 1] == client.last());
            }
        }
        if exists|i: int|
            0 <= i < client.len() && !(#[trigger] client[i]).is_dir && item == (ItemView {
                path: client[i].path,
                action: action_for(client[i], server),
            }) {
            let i = choose|i: int|
                0 <= i < client.len() && !(#[trigger] client[i]).is_dir && item == (ItemView {
                    path: client[i].path,
                    action: action_for(client[i], server),
                });
            if i < front.len() {
                assert(front[i] == client[i]);
                let k = choose|k: int| 0 <= k < before.len() && before[k] == item;
                assert(all[k] == item);
            } else {
                assert(all[all.len() - 1] == item);
            }
        }
    }
}

proof fn lemma_deletions(server: Seq<EntryView>, client: Seq<EntryView>, item: ItemView)
    ensures
        deletions(server, client).contains(item) <==> item.action == SyncAction::Delete && has_file(
            server,
            item.path,
        ) && last_with_path(client, item.path) is None,
    decreases server.len(),
{
    let all = deletions(server, client);
    if server.len() > 0 {
        let front = server.drop_last();
        let before = deletions(front, client);
        lemma_deletions(front, client, item);
        if all.contains(item) {
            let k = choose|k: int| 0 <= k < all.len() && all[k] == item;
            if k < before.len() {
                assert(before[k] == item);
                let i = choose|i: int|
                    0 <= i < front.len() && !(#[trigger] front[i]).is_dir && front[i].path
                        == item.path;
                assert(server[i] == front[i]);
            } else {
                assert(server[server.len() - 1] == server.last());
            }
        }
        if item.action == SyncAction::Delete && has_file(server, item.path) && last_with_path(
            client,
            item.path,
        ) is None {
            let i = choose|i: int|
                0 <= i < server.len() && !(#[trigger] server[i]).is_dir && server[i].path
                    == item.path;
            if i < front.len() {
                assert(front[i] == server[i]);
                let k = choose|k: int| 0 <= k < before.len() && before[k] == item;
                assert(all[k] == item);
            } else {
                assert(all[all.len() - 1] == item);
            }
        }
    }
}

/// A plan says of every file of the client what becomes of it, lets every file go that the
/// client does not have, and nothing else.
pub proof fn law_difference_items(client: Seq<EntryView>, server: Seq<EntryView>, item: ItemView)
    ensures
        difference(client, server).contains(item) <==> (exists|i: int|
            0 <= i < client.len() && !(#[trigger] client[i]).is_dir && item == (ItemView {
                path: client[i].path,
                action: action_for(client[i], server),
            })) || (item.action == SyncAction::Delete && has_file(server, item.path) && !has_file(
            client,
            item.path,
        ) && !has_dir(client, item.path)),
{
    let front = client_items(client, server);
    let back = deletions(server, client);
    lemma_client_items(client, server, item);
    lemma_deletions(server, client, item);
    lemma_last_with_path(client, item.path);
    let all = difference(client, server);
    if all.contains(item) {
        let k = choose|k: int| 0 <= k < all.len() && all[k] == item;
        if k < front.len() {
            assert(front[k] == item);
        } else {
            assert(back[k - front.len()] == item);
        }
    }
    if front.contains(item) {
        let k = choose|k: int| 0 <= k < front.len() && front[k] == item;
        assert(all[k] == item);
    }
    if back.contains(item) {
        let k = choose|k: int| 0 <= k < back.len() && back[k] == item;
        assert(all[front.len() + k] == item);
    }
}

/// Whether the server has a file at a path once a plan has been carried out: it was sent, or it
/// was there and did not go.
pub open spec fn has_file_after(
    client: Seq<EntryView>,
    server: Seq<EntryView>,
    path: Seq<char>,
) -> bool {
    let plan = difference(client, server);
    ||| plan.contains(ItemView { path, action: SyncAction::SendFull })
    ||| plan.contains(ItemView { path, action: SyncAction::SendDelta })
    ||| has_file(server, path) && !plan.contains(ItemView { path, action: SyncAction::Delete })
}

/// Once a plan has been carried out the server has a file exactly where the client has one,
/// unless a path is a file on the one side and a directory on the other.
pub proof fn law_difference_converges(
    client: Seq<EntryView>,
    server: Seq<EntryView>,
    path: Seq<char>,
)
    requires
        !(has_file(client, path) && has_dir(server, path)),
        !(has_dir(client, path) && has_file(server, path)),
    ensures
        has_file_after(client, server, path) <==> has_file(client, path),
{
    let full = ItemView { path, action: SyncAction::SendFull };
    let part = ItemView { path, action: SyncAction::SendDelta };
    let gone = ItemView { path, action: SyncAction::Delete };
    law_difference_items(client, server, full);
    law_difference_items(client, server, part);
    law_difference_items(client, server, gone);
    lemma_last_with_path(server, path);
    if has_file(client, path) {
        let i = choose|i: int|
            0 <= i < client.len() && !(#[trigger] client[i]).is_dir && client[i].path == path;
        let item = ItemView { path, action: action_for(client[i], server) };
        assert(item == (ItemView {
            path: client[i].path,
            action: action_for(client[i], server),
        }));
        law_difference_items(client, server, item);
    }
}

/// A manifest compared with itself leaves nothing to do, as long as no path occurs twice.
pub proof fn law_difference_of_same(entries: Seq<EntryView>, item: ItemView)
    requires
        forall|i: int, j: int|
            0 <= i < j < entries.len() ==> (#[trigger] entries[i]).path != (#[trigger] entries[j]).path,
        difference(entries, entries).contains(item),
    ensures
        item.action == SyncAction::Skip,
{
    law_difference_items(entries, entries, item);
    if exists|i: int|
        0 <= i < entries.len() && !(#[trigger] entries[i]).is_dir && item == (ItemView {
            path: entries[i].path,
            action: action_for(entries[i], entries),
        }) {
        let i = choose|i: int|
            0 <= i < entries.len() && !(#[trigger] entries[i]).is_dir && item == (ItemView {
                path: entries[i].path,
                action: action_for(entries[i], entries),
            });
        lemma_last_with_path(entries, entries[i].path);
        let found = last_with_path(entries, entries[i].path)->0;
        let j = choose|j: int| 0 <= j < entries.len() && entries[j] == found;
        assert(i == j);
    }
}

/// The last entry with a path is the last: no entry behind it has the path.
proof fn lemma_last_is_last(entries: Seq<EntryView>, path: Seq<char>, j: int)
    requires
        0 <= j < entries.len(),
        entries[j].path == path,
        forall|k: int| j < k < entries.len() ==> (#[trigger] entries[k]).path != path,
    ensures
        last_with_path(entries, path) == Some(entries[j]),
    decreases entries.len(),
{
    if j < entries.len() - 1 {
        assert(entries[entries.len() - 1].path != path);
        let front = entries.drop_last();
        assert forall|k: int| j < k < front.len() implies (#[trigger] front[k]).path != path by {
            assert(front[k] == entries[k]);
        }
        lemma_last_is_last(front, path, j);
    }
}

/// The files of the client, in order, are the first items of a plan.
proof fn lemma_items_of_files(client: Seq<EntryView>, server: Seq<EntryView>)
    ensures
        ({
            let files = client.filter(|e: EntryView| !e.is_dir);
            let items = client_items(client, server);
            &&& items.len() == files.len()
            &&& forall|k: int|
                0 <= k < files.len() ==> #[trigger] items[k] == (ItemView {
                    path: files[k].path,
                    action: action_for(files[k], server),
                })
        }),
    decreases client.len(),
{
    reveal(Seq::filter);
    if client.len() > 0 {
        lemma_items_of_files(client.drop_last(), server);
        let files = client.filter(|e: EntryView| !e.is_dir);
        let before = client.drop_last().filter(|e: EntryView| !e.is_dir);
        let items = client_items(client, server);
        let items_before = client_items(client.drop_last(), server);
        assert forall|k: int| 0 <= k < files.len() implies #[trigger] items[k] == (ItemView {
            path: files[k].path,
            action: action_for(files[k], server),
        }) by {
            if k < before.len() {
                assert(files[k] == before[k]);
                assert(items[k] == items_before[k]);
            }
        }
    }
}

/// What a plan says of the files of the client, in order. A file that the server has nothing in
/// place of is sent whole. Otherwise the last entry that the server has at its path decides: the
/// file is left alone exactly where their sizes agree and so do their checksums, or, where one of
/// them has no checksum, their times of change; and it is sent in part everywhere else.
pub proof fn law_plan_of_a_file(client: Seq<EntryView>, server: Seq<EntryView>, k: int, j: int)
    requires
        0 <= k < client.filter(|e: EntryView| !e.is_dir).len(),
    ensures
        ({
            let file = client.filter(|e: EntryView| !e.is_dir)[k];
            let plan = difference(client, server);
            let is_absent = forall|n: int|
                0 <= n < server.len() ==> (#[trigger] server[n]).path != file.path;
            let is_last = 0 <= j < server.len() && server[j].path == file.path && forall|n: int|
                j < n < server.len() ==> (#[trigger] server[n]).path != file.path;
            let is_same = file.size == server[j].size && match (
                file.checksum,
                server[j].checksum,
            ) {
                (Some(a), Some(b)) => a == b,
                _ => file.modified == server[j].modified,
            };
            &&& k < plan.len()
            &&& plan[k].path == file.path
            &&& is_absent <==> plan[k].action == SyncAction::SendFull
            &&& is_last && is_same ==> plan[k].action == SyncAction::Skip
            &&& is_last && !is_same ==> plan[k].action == SyncAction::SendDelta
        }),
{
    let file = client.filter(|e: EntryView| !e.is_dir)[k];
    lemma_items_of_files(client, server);
    assert(difference(client, server)[k] == client_items(client, server)[k]);
    lemma_last_with_path(server, file.path);
    if last_with_path(server, file.path) is Some {
        let found = last_with_path(server, file.path)->0;
        let n = choose|n: int| 0 <= n < server.len() && server[n] == found;
        assert(server[n].path == file.path);
    }
    if 0 <= j < server.len() && server[j].path == file.path && forall|n: int|
        j < n < server.len() ==> (#[trigger] server[n]).path != file.path {
        lemma_last_is_last(server, file.path, j);
    }
}

proof fn lemma_items_of_gone(server: Seq<EntryView>, client: Seq<EntryView>)
    ensures
        ({
            let gone = server.filter(
                |e: EntryView|
                    !e.is_dir && forall|n: int|
                        0 <= n < client.len() ==> (#[trigger] client[n]).path != e.path,
            );
            let items = deletions(server, client);
            &&& items.len() == gone.len()
            &&& forall|k: int|
                0 <= k < gone.len() ==> #[trigger] items[k] == (ItemView {
                    path: gone[k].path,
                    action: SyncAction::Delete,
                })
        }),
    decreases server.len(),
{
    reveal(Seq::filter);
    let goes = |e: EntryView|
        !e.is_dir && forall|n: int|
            0 <= n < client.len() ==> (#[trigger] client[n]).path != e.path;
    if server.len() > 0 {
        lemma_items_of_gone(server.drop_last(), client);
        let entry = server.last();
        lemma_last_with_path(client, entry.path);
        if last_with_path(client, entry.path) is Some {
            let found = last_with_path(client, entry.path)->0;
            let n = choose|n: int| 0 <= n < client.len() && client[n] == found;
            assert(client[n].path == entry.path);
            assert(!goes(entry));
        } else {
            assert forall|n: int| 0 <= n < client.len() implies (#[trigger] client[n]).path
                != entry.path by {
                assert(!has_file(client, entry.path) && !has_dir(client, entry.path));
            }
            assert(goes(entry) == !entry.is_dir);
        }
        let gone = server.filter(goes);
        let before = server.drop_last().filter(goes);
        let items = deletions(server, client);
        let items_before = deletions(server.drop_last(), client);
        assert forall|k: int| 0 <= k < gone.len() implies #[trigger] items[k] == (ItemView {
            path: gone[k].path,
            action: SyncAction::Delete,
        }) by {
            if k < before.len() {
                assert(gone[k] == before[k]);
                assert(items[k] == items_before[k]);
            }
        }
    }
}

/// Behind the files of the client a plan lets those files of the server go, in order, whose paths
/// the client has nothing at, and says nothing more.
pub proof fn law_plan_of_the_rest(client: Seq<EntryView>, server: Seq<EntryView>)
    ensures
        ({
            let files = client.filter(|e: EntryView| !e.is_dir);
            let gone = server.filter(
                |e: EntryView|
                    !e.is_dir && forall|n: int|
                        0 <= n < client.len() ==> (#[trigger] client[n]).path != e.path,
            );
            let plan = difference(client, server);
            &&& plan.len() == files.len() + gone.len()
            &&& forall|k: int|
                0 <= k < gone.len() ==> plan[files.len() + k] == (ItemView {
                    path: (#[trigger] gone[k]).path,
                    action: SyncAction::Delete,
                })
        }),
{
    lemma_items_of_files(client, server);
    lemma_items_of_gone(server, client);
    let files = client.filter(|e: EntryView| !e.is_dir);
    let gone = server.filter(
        |e: EntryView|
            !e.is_dir && forall|n: int|
                0 <= n < client.len() ==> (#[trigger] client[n]).path != e.path,
    );
    assert forall|k: int| 0 <= k < gone.len() implies difference(client, server)[files.len() + k]
        == (ItemView { path: (#[trigger] gone[k]).path, action: SyncAction::Delete }) by {
        assert(deletions(server, client)[k] == (ItemView {
            path: gone[k].path,
            action: SyncAction::Delete,
        }));
    }
}

/// Once a plan has been carried out the server holds the content of every file that the client
/// has: the file is sent, or what the server has at its path stays and has the same size and the
/// same checksum. No path occurs twice on either side, and both have the checksum of the file,
/// where the server has it.
pub proof fn law_content_converges(
    client: Seq<EntryView>,
    server: Seq<EntryView>,
    i: int,
    digest: Seq<u8>,
)
    requires
        0 <= i < client.len(),
        !client[i].is_dir,
        client[i].checksum == Some(digest),
        forall|a: int, b: int|
            0 <= a < b < client.len() ==> (#[trigger] client[a]).path != (#[trigger] client[b]).path,
        forall|a: int, b: int|
            0 <= a < b < server.len() ==> (#[trigger] server[a]).path != (#[trigger] server[b]).path,
        forall|j: int|
            0 <= j < server.len() && (#[trigger] server[j]).path == client[i].path
                ==> server[j].checksum is Some,
    ensures
        ({
            let path = client[i].path;
            let plan = difference(client, server);
            let is_sent = plan.contains(ItemView { path, action: SyncAction::SendFull })
                || plan.contains(ItemView { path, action: SyncAction::SendDelta });
            &&& !plan.contains(ItemView { path, action: SyncAction::Delete })
            &&& is_sent || exists|j: int|
                0 <= j < server.len() && (#[trigger] server[j]).path == path && server[j].checksum
                    == Some(digest) && server[j].size == client[i].size
        }),
{
    let path = client[i].path;
    let plan = difference(client, server);
    let keeps = |e: EntryView| !e.is_dir;
    let files = client.filter(keeps);
    client.lemma_filter_contains(keeps, i);
    let k = choose|k: int| 0 <= k < files.len() && files[k] == client[i];
    law_plan_of_a_file(client, server, k, 0);
    law_difference_items(client, server, ItemView { path, action: SyncAction::Delete });
    assert(has_file(client, path));
    if plan.contains(ItemView { path, action: SyncAction::Delete }) {
        let n = choose|n: int|
            0 <= n < client.len() && !(#[trigger] client[n]).is_dir && ItemView {
                path,
                action: SyncAction::Delete,
            } == (ItemView { path: client[n].path, action: action_for(client[n], server) });
        assert(action_for(client[n], server) != SyncAction::Delete);
    }
    assert(plan[k] == (ItemView { path, action: plan[k].action }));
    if plan[k].action != SyncAction::SendFull {
        let j = choose|j: int| 0 <= j < server.len() && (#[trigger] server[j]).path == path;
        assert forall|n: int| j < n < server.len() implies (#[trigger] server[n]).path
            != client[i].path by {
            assert(server[j].path != server[n].path);
        }
        law_plan_of_a_file(client, server, k, j);
    }
}

/// The files that are sent are those that a plan says to send, whole or in part.
pub proof fn law_files_to_sync(plan: Seq<ItemView>, path: Seq<char>)
    ensures
        paths(plan.filter(|item: ItemView| is_sent(item))).contains(path) <==> plan.contains(
            ItemView { path, action: SyncAction::SendFull },
        ) || plan.contains(ItemView { path, action: SyncAction::SendDelta }),
{
    let sent = |item: ItemView| is_sent(item);
    let kept = plan.filter(sent);
    if paths(kept).contains(path) {
        let k = choose|k: int| 0 <= k < paths(kept).len() && paths(kept)[k] == path;
        plan.lemma_filter_pred(sent, k);
        assert(kept.contains(kept[k]));
        plan.lemma_filter_contains_rev(sent, kept[k]);
        assert(kept[k] == (ItemView { path, action: kept[k].action }));
    }
    assert forall|action: SyncAction|
        (action == SyncAction::SendFull || action == SyncAction::SendDelta) && plan.contains(
            ItemView { path, action },
        ) implies paths(kept).contains(path) by {
        let item = ItemView { path, action };
        let i = choose|i: int| 0 <= i < plan.len() && plan[i] == item;
        plan.lemma_filter_contains(sent, i);
        let k = choose|k: int| 0 <= k < kept.len() && kept[k] == item;
        assert(paths(kept)[k] == path);
    }
    if plan.contains(ItemView { path, action: SyncAction::SendFull }) {
        assert(paths(kept).contains(path));
    }
}

/// How often an action is counted is how many items have it.
pub proof fn law_count_of_action(items: Seq<ItemView>, action: SyncAction)
    ensures
        count_of(items, action) == items.filter(|item: ItemView| item.action == action).len(),
    decreases items.len(),
{
    reveal(Seq::filter);
    if items.len() > 0 {
        law_count_of_action(items.drop_last(), action);
    }
}

/// Two entries look the same exactly where their paths, sizes and times of change agree; so every
/// entry looks like itself.
pub proof fn law_looks_same(a: EntryView, b: EntryView)
    ensures
        looks_same(a, b) <==> a.path == b.path && a.size == b.size && a.modified == b.modified,
        looks_same(a, a),
{
}

/// The counts of a plan, by the names of the actions: an action that occurs is there with the number
/// of items that have it, and nothing else is there.
pub proof fn law_counts_by_name(
    counts: Map<Seq<char>, usize>,
    items: Seq<ItemView>,
    action: SyncAction,
)
    requires
        counts_actions(counts, items),
    ensures
        ({
            let name = match action {
                SyncAction::SendFull => "SendFull"@,
                SyncAction::SendDelta => "SendDelta"@,
                SyncAction::Skip => "Skip"@,
                SyncAction::Delete => "Delete"@,
            };
            let found = items.filter(|item: ItemView| item.action == action).len();
            &&& counts.contains_key(name) <==> found > 0
            &&& found > 0 ==> counts[name] == found
        }),
        forall|name: Seq<char>| #[trigger]
            counts.contains_key(name) ==> name == "SendFull"@ || name == "SendDelta"@ || name
                == "Skip"@ || name == "Delete"@,
{
    law_count_of_action(items, action);
    assert(counts.contains_key(action_name(action)) <==> count_of(items, action) > 0);
}

/// What is known of an item is what its fields hold, and a list is known item by item.
pub proof fn law_items_are_known(items: Seq<SyncItem>, i: int)
    requires
        0 <= i < items.len(),
    ensures
        views(items).len() == items.len(),
        views(items)[i].path == items[i].path@,
        views(items)[i].action == items[i].action,
{
}

} // verus!
