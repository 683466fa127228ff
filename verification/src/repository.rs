//! The repository facade: configuration, the snapshot it guards, and
//! the deciding half of the action executor.
//!
//! Everything here is computation on plain values. Reading and writing
//! disk, and talking to the remote service, are the caller's business:
//! the caller performs one action's outside work, and only then
//! advances the snapshot through [`Repository::apply_action`].

use crate::client_string::ClientString;
use crate::content::diff::{action_model, Action, ActionModel};
use crate::content::filesystem::{
    can_set_at, find_at_path, path_view, remove_at, set_at, LocalFilesystem,
};
use crate::content::item::{ItemModel, LocalItem, TreeError};
use vstd::prelude::*;

verus! {

/// A server-issued authentication token with its expiration time.
pub struct AuthToken {
    pub token: String,
    pub expiration_date: u64,
}

/// What an upload sends in one request, at most this many bytes.
pub const CHUNK_SIZE: u64 = 50 * 1024 * 1024;

/// The sizes of the bodies a chunked upload sends, in order: full
/// chunks, then the remainder; a zero-byte file sends one empty body.
pub open spec fn chunk_plan(size: u64) -> Seq<u64>
    decreases size,
{
    if size <= CHUNK_SIZE {
        seq![size]
    } else {
        seq![CHUNK_SIZE] + chunk_plan((size - CHUNK_SIZE) as u64)
    }
}

/// The body sizes of a chunked upload of the given file size.
pub fn chunk_sizes(size: u64) -> (r: Vec<u64>)
    ensures
        r@ == chunk_plan(size),
{
    let mut r: Vec<u64> = Vec::new();
    let mut remaining = size;
    while remaining > CHUNK_SIZE
        invariant
            chunk_plan(size) == r@ + chunk_plan(remaining),
        decreases remaining,
    {
        let ghost r_pre = r@;
        r.push(CHUNK_SIZE);
        remaining = remaining - CHUNK_SIZE;
        proof {
            assert(r_pre + (seq![CHUNK_SIZE] + chunk_plan(remaining)) =~= r@ + chunk_plan(
                remaining,
            ));
        }
    }
    r.push(remaining);
    proof {
        assert(chunk_plan(remaining) =~= seq![remaining]);
        assert(chunk_plan(size) =~= r@);
    }
    r
}

/// What the upload loop does next, decided from the server's reply.
pub enum UploadStep {
    /// Send the next chunk under this stream id.
    SendNext(String),
    /// The upload is complete.
    Done,
}

/// Why an upload stops without completing.
pub enum UploadError {
    /// The server answered with a non-empty message.
    ServerMessage(String),
    /// The server neither finished nor issued a stream id.
    MissingStreamId,
}

/// Decide the next upload step from one reply. A non-empty message
/// aborts; with nothing left to send the upload is done; otherwise a
/// stream id is required to continue.
pub fn upload_advance(remaining: u64, stream_id: Option<String>, message: Option<String>) -> (r:
    Result<UploadStep, UploadError>)
    ensures
        match r {
            Ok(UploadStep::Done) => (message matches Some(m) ==> m@.len() == 0) && remaining == 0,
            Ok(UploadStep::SendNext(t)) => (message matches Some(m) ==> m@.len() == 0) && remaining
                > 0 && (stream_id matches Some(t2) && t2@ == t@),
            Err(UploadError::ServerMessage(m)) => (message matches Some(m2) && m2@ == m@) && m@.len()
                > 0,
            Err(UploadError::MissingStreamId) => (message matches Some(m) ==> m@.len() == 0)
                && remaining > 0 && stream_id is None,
        },
{
    if let Some(m) = message {
        if !m.as_str().is_empty() {
            return Err(UploadError::ServerMessage(m));
        }
    }
    if remaining == 0 {
        return Ok(UploadStep::Done);
    }
    match stream_id {
        Some(t) => Ok(UploadStep::SendNext(t)),
        None => Err(UploadError::MissingStreamId),
    }
}

/// The value of the `content-path` upload header: the parent
/// directory's encoded components joined by slashes, or a single slash
/// for the repository root.
pub open spec fn content_path_of(p: Seq<Seq<u8>>) -> Seq<u8>
    decreases p.len(),
{
    if p.len() == 0 {
        seq![0x2fu8]
    } else if p.len() == 1 {
        p[0]
    } else {
        p[0] + seq![0x2fu8] + content_path_of(p.drop_first())
    }
}

/// The `content-path` header bytes for an item whose parent directory
/// has the given path from the root.
pub fn content_path_header(parent: &[ClientString]) -> (r: Vec<u8>)
    ensures
        r@ == content_path_of(path_view(parent@)),
{
    let ghost pv = path_view(parent@);
    let mut r: Vec<u8> = Vec::new();
    if parent.len() == 0 {
        r.push(0x2f);
        proof {
            assert(r@ =~= content_path_of(pv));
        }
        return r;
    }
    let mut i: usize = 0;
    proof {
        assert(pv.skip(0) =~= pv);
        assert(Seq::<u8>::empty() + content_path_of(pv) =~= content_path_of(pv));
    }
    while i < parent.len()
        invariant
            pv == path_view(parent@),
            pv.len() == parent@.len(),
            forall|j: int| 0 <= j < parent@.len() ==> pv[j] == parent@[j]@,
            0 < pv.len(),
            0 <= i <= parent@.len(),
            i < parent@.len() ==> content_path_of(pv) == r@ + content_path_of(pv.skip(i as int)),
            i == parent@.len() ==> content_path_of(pv) == r@,
        decreases parent@.len() - i,
    {
        let ghost rest = pv.skip(i as int);
        proof {
            assert(rest[0] == pv[i as int]);
            assert(rest.drop_first() =~= pv.skip(i + 1 as int));
        }
        let bytes = parent[i].encoded_bytes();
        let ghost r_pre = r@;
        let mut j: usize = 0;
        while j < bytes.len()
            invariant
                0 <= j <= bytes@.len(),
                r@ == r_pre + bytes@.take(j as int),
            decreases bytes@.len() - j,
        {
            r.push(bytes[j]);
            proof {
                assert(bytes@.take(j + 1 as int) =~= bytes@.take(j as int).push(
                    bytes@[j as int],
                ));
                assert(r_pre + bytes@.take(j as int).push(bytes@[j as int]) =~= r@);
            }
            j = j + 1;
        }
        proof {
            assert(bytes@.take(bytes@.len() as int) =~= bytes@);
        }
        if i + 1 < parent.len() {
            r.push(0x2f);
            proof {
                assert(rest.len() > 1);
                assert(content_path_of(rest) == rest[0] + seq![0x2fu8] + content_path_of(
                    rest.drop_first(),
                ));
                assert(r@ =~= r_pre + rest[0] + seq![0x2fu8]);
                assert(r_pre + content_path_of(rest) =~= r@ + content_path_of(
                    pv.skip(i + 1 as int),
                ));
            }
        } else {
            proof {
                assert(rest.len() == 1);
                assert(content_path_of(rest) == rest[0]);
                assert(r_pre + content_path_of(rest) =~= r@);
            }
        }
        i = i + 1;
    }
    r
}

/// What the origin, user and repository parts of a remote url string
/// are; they depend on the string alone.
pub uninterp spec fn url_parts_of(s: Seq<char>) -> Option<(Seq<char>, Seq<char>, Seq<char>)>;

/// Relies on url::Url::parse, Url::origin's ascii serialization and
/// Url::path_segments: the parts a url string splits into depend on
/// the string alone.
#[verifier::external_body]
fn parse_remote_url(s: &str) -> (r: Option<(String, String, String)>)
    ensures
        match r {
            Some(p) => url_parts_of(s@) == Some((p.0@, p.1@, p.2@)),
            None => url_parts_of(s@) is None,
        },
{
    let u = match url::Url::parse(s) {
        Ok(u) => u,
        Err(_) => {
            return None;
        },
    };
    let origin = u.origin().ascii_serialization();
    let mut segs = u.path_segments()?;
    let user = segs.next()?.to_string();
    let repo = segs.next()?.to_string();
    Some((origin, user, repo))
}

/// The repository facade: the persisted configuration and the
/// snapshot of the last synchronized state.
pub struct Repository {
    pub remote_origin: String,
    pub remote_user: String,
    pub remote_repository: String,
    pub editor_command: String,
    pub auth_token: Option<AuthToken>,
    pub local_content: LocalFilesystem,
}

impl Repository {
    /// A fresh repository: empty configuration, empty snapshot.
    pub fn new() -> (r: Self)
        ensures
            r.remote_origin@.len() == 0,
            r.remote_user@.len() == 0,
            r.remote_repository@.len() == 0,
            r.editor_command@.len() == 0,
            r.auth_token is None,
            r.local_content@ == Seq::<ItemModel>::empty(),
    {
        Repository {
            remote_origin: String::new(),
            remote_user: String::new(),
            remote_repository: String::new(),
            editor_command: String::new(),
            auth_token: None,
            local_content: LocalFilesystem::new(),
        }
    }

    /// The snapshot tree.
    pub fn snapshot(&self) -> (r: &LocalFilesystem)
        ensures
            r == &self.local_content,
    {
        &self.local_content
    }

    /// Replace the snapshot tree, as after loading it from disk.
    pub fn set_snapshot(&mut self, fs: LocalFilesystem)
        ensures
            final(self).local_content == fs,
            final(self).remote_origin == old(self).remote_origin,
            final(self).remote_user == old(self).remote_user,
            final(self).remote_repository == old(self).remote_repository,
            final(self).editor_command == old(self).editor_command,
            final(self).auth_token == old(self).auth_token,
    {
        self.local_content = fs;
    }

    /// Remember the editor command.
    pub fn set_editor_command(&mut self, new_editor_command: String)
        ensures
            final(self).editor_command == new_editor_command,
            final(self).local_content == old(self).local_content,
    {
        self.editor_command = new_editor_command;
    }

    /// The remembered editor command.
    pub fn get_editor_command(&self) -> (r: &str)
        ensures
            r@ == self.editor_command@,
    {
        self.editor_command.as_str()
    }

    /// Split a url into origin, user and repository and remember the
    /// parts; an error leaves the configuration unchanged.
    pub fn set_remote_url(&mut self, new_remote_url: String) -> (r: Result<(), TreeError>)
        ensures
            r is Ok <==> url_parts_of(new_remote_url@) is Some,
            match url_parts_of(new_remote_url@) {
                Some(p) => final(self).remote_origin@ == p.0 && final(self).remote_user@ == p.1
                    && final(self).remote_repository@ == p.2,
                None => *final(self) == *old(self),
            },
            final(self).local_content == old(self).local_content,
            final(self).editor_command == old(self).editor_command,
    {
        match parse_remote_url(new_remote_url.as_str()) {
            None => Err(TreeError::NotFound),
            Some((origin, user, repo)) => {
                self.remote_origin = origin;
                self.remote_user = user;
                self.remote_repository = repo;
                Ok(())
            },
        }
    }

    /// The full remote url, origin then user then repository; an error
    /// while any part is missing.
    pub fn get_remote_url(&self) -> (r: Result<String, TreeError>)
        ensures
            r is Ok <==> self.remote_origin@.len() > 0 && self.remote_user@.len() > 0
                && self.remote_repository@.len() > 0,
            r matches Ok(u) ==> u@ == self.remote_origin@ + seq!['/'] + self.remote_user@
                + seq!['/'] + self.remote_repository@,
    {
        if self.remote_origin.as_str().is_empty() || self.remote_user.as_str().is_empty()
            || self.remote_repository.as_str().is_empty() {
            return Err(TreeError::NotFound);
        }
        proof {
            reveal_strlit("/");
        }
        let mut u = self.remote_origin.clone();
        u.append("/");
        u.append(self.remote_user.as_str());
        u.append("/");
        u.append(self.remote_repository.as_str());
        proof {
            assert("/"@ =~= seq!['/']);
        }
        Ok(u)
    }

    /// The user and repository path, each part followed by a slash; an
    /// error while either part is missing.
    pub fn repos_path(&self) -> (r: Result<String, TreeError>)
        ensures
            r is Ok <==> self.remote_user@.len() > 0 && self.remote_repository@.len() > 0,
            r matches Ok(u) ==> u@ == self.remote_user@ + seq!['/'] + self.remote_repository@
                + seq!['/'],
    {
        if self.remote_user.as_str().is_empty() || self.remote_repository.as_str().is_empty() {
            return Err(TreeError::NotFound);
        }
        proof {
            reveal_strlit("/");
        }
        let mut u = self.remote_user.clone();
        u.append("/");
        u.append(self.remote_repository.as_str());
        u.append("/");
        proof {
            assert("/"@ =~= seq!['/']);
        }
        Ok(u)
    }
}

/// The snapshot after one action's outside work succeeded: scanned or
/// remote states are adopted, removed entries are dropped, conflicts
/// and unrecognized shapes change nothing.
pub open spec fn snapshot_after(s: Seq<ItemModel>, a: ActionModel) -> Seq<ItemModel> {
    match a {
        ActionModel::ResyncLocal(p, x) => set_if_fits(s, p, x),
        ActionModel::LocalUpgraded(p, x, _) => set_if_fits(s, p, x),
        ActionModel::RemoteUpgraded(p, _, y) => set_if_fits(s, p, y),
        ActionModel::LocalAdded(p, x) => set_if_fits(s, p, x),
        ActionModel::RemoteAdded(p, x) => set_if_fits(s, p, x),
        ActionModel::ErrorLocalDowngraded(p, x, _) => set_if_fits(s, p, x),
        ActionModel::ErrorRemoteDowngraded(p, _, y) => set_if_fits(s, p, y),
        ActionModel::LocalRemoved(p, _, _) => remove_if_fits(s, p),
        ActionModel::RemoteRemoved(p, _) => remove_if_fits(s, p),
        ActionModel::RemovedOnBothSides(p, _) => remove_if_fits(s, p),
        _ => s,
    }
}

/// Place an entry, provided the path names it.
pub open spec fn set_if_fits(s: Seq<ItemModel>, p: Seq<Seq<u8>>, m: ItemModel) -> Seq<ItemModel> {
    if p.len() > 0 && p.last() == m.name {
        set_at(s, p, m)
    } else {
        s
    }
}

/// Drop an entry, provided the path is not empty.
pub open spec fn remove_if_fits(s: Seq<ItemModel>, p: Seq<Seq<u8>>) -> Seq<ItemModel> {
    if p.len() > 0 {
        remove_at(s, p)
    } else {
        s
    }
}

/// True when a placing action's path fits the snapshot: it names the
/// carried entry and leads through existing directories.
pub open spec fn set_applies(s: Seq<ItemModel>, p: Seq<Seq<u8>>, m: ItemModel) -> bool {
    p.len() > 0 && p.last() == m.name && can_set_at(s, p)
}

/// True when a removing action's path leads to an entry.
pub open spec fn remove_applies(s: Seq<ItemModel>, p: Seq<Seq<u8>>) -> bool {
    p.len() > 0 && find_at_path(s, p) is Some
}

/// True when one completed action's snapshot bookkeeping applies:
/// adopted entries can be placed at their path, removed entries are
/// still held, and the kinds that change nothing always apply.
pub open spec fn action_applies(s: Seq<ItemModel>, a: ActionModel) -> bool {
    match a {
        ActionModel::ResyncLocal(p, x) => set_applies(s, p, x),
        ActionModel::LocalUpgraded(p, x, _) => set_applies(s, p, x),
        ActionModel::RemoteUpgraded(p, _, y) => set_applies(s, p, y),
        ActionModel::LocalAdded(p, x) => set_applies(s, p, x),
        ActionModel::RemoteAdded(p, x) => set_applies(s, p, x),
        ActionModel::ErrorLocalDowngraded(p, x, _) => set_applies(s, p, x),
        ActionModel::ErrorRemoteDowngraded(p, _, y) => set_applies(s, p, y),
        ActionModel::LocalRemoved(p, _, _) => remove_applies(s, p),
        ActionModel::RemoteRemoved(p, _) => remove_applies(s, p),
        ActionModel::RemovedOnBothSides(p, _) => remove_applies(s, p),
        _ => true,
    }
}

/// How many actions of a run apply in order before the first that
/// does not: the whole run exactly when every path fits in sequence.
pub open spec fn applied_count(s: Seq<ItemModel>, actions: Seq<ActionModel>) -> nat
    decreases actions.len(),
{
    if actions.len() == 0 {
        0
    } else if action_applies(s, actions[0]) {
        1 + applied_count(snapshot_after(s, actions[0]), actions.drop_first())
    } else {
        0
    }
}

/// An action that does not apply changes nothing.
pub proof fn lemma_snapshot_after_noop(s: Seq<ItemModel>, a: ActionModel)
    requires
        !action_applies(s, a),
    ensures
        snapshot_after(s, a) == s,
{
    match a {
        ActionModel::ResyncLocal(p, x) => lemma_set_if_fits_noop(s, p, x),
        ActionModel::LocalUpgraded(p, x, _) => lemma_set_if_fits_noop(s, p, x),
        ActionModel::RemoteUpgraded(p, _, y) => lemma_set_if_fits_noop(s, p, y),
        ActionModel::LocalAdded(p, x) => lemma_set_if_fits_noop(s, p, x),
        ActionModel::RemoteAdded(p, x) => lemma_set_if_fits_noop(s, p, x),
        ActionModel::ErrorLocalDowngraded(p, x, _) => lemma_set_if_fits_noop(s, p, x),
        ActionModel::ErrorRemoteDowngraded(p, _, y) => lemma_set_if_fits_noop(s, p, y),
        ActionModel::LocalRemoved(p, _, _) => lemma_remove_if_fits_noop(s, p),
        ActionModel::RemoteRemoved(p, _) => lemma_remove_if_fits_noop(s, p),
        ActionModel::RemovedOnBothSides(p, _) => lemma_remove_if_fits_noop(s, p),
        _ => {},
    }
}

proof fn lemma_set_if_fits_noop(s: Seq<ItemModel>, p: Seq<Seq<u8>>, m: ItemModel)
    requires
        !set_applies(s, p, m),
    ensures
        set_if_fits(s, p, m) == s,
{
    if p.len() > 0 && p.last() == m.name {
        crate::content::filesystem::lemma_set_at_noop(s, p, m);
    }
}

proof fn lemma_remove_if_fits_noop(s: Seq<ItemModel>, p: Seq<Seq<u8>>)
    requires
        !remove_applies(s, p),
    ensures
        remove_if_fits(s, p) == s,
{
    if p.len() > 0 {
        crate::content::filesystem::lemma_remove_at_noop(s, p);
    }
}

impl Repository {
    /// Advance the snapshot for one completed action. Call this only
    /// after the action's disk and remote work succeeded. It succeeds
    /// exactly when the action applies; an error reports a path that
    /// does not fit the snapshot, which is then unchanged.
    pub fn apply_action(&mut self, action: &Action) -> (r: Result<(), TreeError>)
        ensures
            final(self).local_content@ == snapshot_after(
                old(self).local_content@,
                action_model(*action),
            ),
            r is Ok <==> action_applies(old(self).local_content@, action_model(*action)),
            final(self).remote_origin == old(self).remote_origin,
            final(self).remote_user == old(self).remote_user,
            final(self).remote_repository == old(self).remote_repository,
            final(self).editor_command == old(self).editor_command,
            final(self).auth_token == old(self).auth_token,
    {
        match action {
            Action::ResyncLocal(p, x) => self.set_entry(p, x),
            Action::LocalUpgraded(p, x, _) => self.set_entry(p, x),
            Action::RemoteUpgraded(p, _, y) => self.set_entry(p, y),
            Action::LocalAdded(p, x) => self.set_entry(p, x),
            Action::RemoteAdded(p, x) => self.set_entry(p, x),
            Action::ErrorLocalDowngraded(p, x, _) => self.set_entry(p, x),
            Action::ErrorRemoteDowngraded(p, _, y) => self.set_entry(p, y),
            Action::LocalRemoved(p, _, _) => self.remove_entry(p),
            Action::RemoteRemoved(p, _) => self.remove_entry(p),
            Action::RemovedOnBothSides(p, _) => self.remove_entry(p),
            _ => Ok(()),
        }
    }

    /// Advance the snapshot for a whole run of completed actions, in
    /// order, stopping at the first whose path does not fit. It
    /// succeeds exactly when every action applies in sequence; either
    /// way the snapshot afterwards reflects exactly the applied
    /// prefix, and the configuration is untouched.
    pub fn apply_actions(&mut self, actions: &Vec<Action>) -> (r: Result<(), TreeError>)
        ensures
            ({
                let av = actions@.map_values(|a: Action| action_model(a));
                &&& final(self).local_content@ == snapshot_after_all(
                    old(self).local_content@,
                    av.take(applied_count(old(self).local_content@, av) as int),
                )
                &&& (r is Ok <==> applied_count(old(self).local_content@, av) == av.len())
            }),
            final(self).remote_origin == old(self).remote_origin,
            final(self).remote_user == old(self).remote_user,
            final(self).remote_repository == old(self).remote_repository,
            final(self).editor_command == old(self).editor_command,
            final(self).auth_token == old(self).auth_token,
    {
        let ghost av = actions@.map_values(|a: Action| action_model(a));
        let ghost s0 = old(self).local_content@;
        let mut i: usize = 0;
        proof {
            assert(av.take(0) =~= Seq::<ActionModel>::empty());
            assert(av.skip(0) =~= av);
        }
        while i < actions.len()
            invariant
                av == actions@.map_values(|a: Action| action_model(a)),
                av.len() == actions@.len(),
                forall|j: int| 0 <= j < actions@.len() ==> av[j] == action_model(actions@[j]),
                0 <= i <= actions@.len(),
                s0 == old(self).local_content@,
                self.local_content@ == snapshot_after_all(s0, av.take(i as int)),
                applied_count(s0, av) == i + applied_count(
                    self.local_content@,
                    av.skip(i as int),
                ),
                self.remote_origin == old(self).remote_origin,
                self.remote_user == old(self).remote_user,
                self.remote_repository == old(self).remote_repository,
                self.editor_command == old(self).editor_command,
                self.auth_token == old(self).auth_token,
            decreases actions@.len() - i,
        {
            let ghost cur = self.local_content@;
            let ghost rest = av.skip(i as int);
            proof {
                assert(rest[0] == av[i as int]);
                assert(rest.drop_first() =~= av.skip(i + 1 as int));
                assert(av.take(i + 1 as int).drop_last() =~= av.take(i as int));
                assert(av.take(i + 1 as int).last() == av[i as int]);
            }
            let r = self.apply_action(&actions[i]);
            if r.is_err() {
                proof {
                    assert(!action_applies(cur, av[i as int]));
                    assert(applied_count(cur, rest) == 0);
                    assert(applied_count(s0, av) == i);
                    lemma_snapshot_after_noop(cur, av[i as int]);
                    assert(self.local_content@ == cur);
                }
                return r;
            }
            proof {
                assert(action_applies(cur, av[i as int]));
                assert(applied_count(cur, rest) == 1 + applied_count(
                    self.local_content@,
                    av.skip(i + 1 as int),
                ));
            }
            i = i + 1;
        }
        proof {
            assert(av.skip(av.len() as int) =~= Seq::<ActionModel>::empty());
            assert(applied_count(self.local_content@, av.skip(av.len() as int)) == 0);
            assert(applied_count(s0, av) == av.len());
            assert(av.take(av.len() as int) =~= av);
        }
        Ok(())
    }

    fn set_entry(&mut self, p: &Vec<ClientString>, x: &LocalItem) -> (r: Result<(), TreeError>)
        ensures
            final(self).local_content@ == set_if_fits(old(self).local_content@, path_view(p@), x@),
            r is Ok <==> set_applies(old(self).local_content@, path_view(p@), x@),
            final(self).remote_origin == old(self).remote_origin,
            final(self).remote_user == old(self).remote_user,
            final(self).remote_repository == old(self).remote_repository,
            final(self).editor_command == old(self).editor_command,
            final(self).auth_token == old(self).auth_token,
    {
        if p.len() == 0 {
            return Err(TreeError::NotFound);
        }
        let item = crate::content::item::clone_item(x);
        if !p[p.len() - 1].eq_name(&item.name) {
            proof {
                assert(path_view(p@).last() == p@[p@.len() - 1]@);
            }
            return Err(TreeError::NotFound);
        }
        proof {
            assert(path_view(p@).last() == p@[p@.len() - 1]@);
        }
        self.local_content.set_at_path(p.as_slice(), item)
    }

    fn remove_entry(&mut self, p: &Vec<ClientString>) -> (r: Result<(), TreeError>)
        ensures
            final(self).local_content@ == remove_if_fits(old(self).local_content@, path_view(p@)),
            r is Ok <==> remove_applies(old(self).local_content@, path_view(p@)),
            final(self).remote_origin == old(self).remote_origin,
            final(self).remote_user == old(self).remote_user,
            final(self).remote_repository == old(self).remote_repository,
            final(self).editor_command == old(self).editor_command,
            final(self).auth_token == old(self).auth_token,
    {
        if p.len() == 0 {
            return Err(TreeError::NotFound);
        }
        self.local_content.remove_at_path(p.as_slice())
    }
}

/// The snapshot after a run of completed actions, in order.
pub open spec fn snapshot_after_all(s: Seq<ItemModel>, actions: Seq<ActionModel>) -> Seq<
    ItemModel,
>
    decreases actions.len(),
{
    if actions.len() == 0 {
        s
    } else {
        snapshot_after(snapshot_after_all(s, actions.drop_last()), actions.last())
    }
}

} // verus!
