//! The spool directory: one queue directory per lifecycle phase, and one
//! directory per backup beneath it.
use vstd::prelude::*;
use crate::backup_id::{BackupId, backup_path, delimited};

verus! {

/// A lifecycle phase, and the directory of the spool that queues for it.
#[derive(Clone, Copy, Debug, PartialEq, Eq, Structural)]
pub enum Queue {
    Backup,
    Freeze,
    Thaw,
    Restore,
}

/// The directory name of a queue.
pub open spec fn queue_name(q: Queue) -> Seq<char> {
    match q {
        Queue::Backup => seq!['b', 'a', 'c', 'k', 'u', 'p'],
        Queue::Freeze => seq!['f', 'r', 'e', 'e', 'z', 'e'],
        Queue::Thaw => seq!['t', 'h', 'a', 'w'],
        Queue::Restore => seq!['r', 'e', 's', 't', 'o', 'r', 'e'],
    }
}

impl Queue {
    /// The lower-case directory name of the queue.
    pub fn dir_name(self) -> (r: &'static str)
        ensures
            r@ == queue_name(self),
    {
        match self {
            Queue::Backup => {
                proof {
                    reveal_strlit("backup");
                }
                "backup"
            },
            Queue::Freeze => {
                proof {
                    reveal_strlit("freeze");
                }
                "freeze"
            },
            Queue::Thaw => {
                proof {
                    reveal_strlit("thaw");
                }
                "thaw"
            },
            Queue::Restore => {
                proof {
                    reveal_strlit("restore");
                }
                "restore"
            },
        }
    }
}

impl Default for Queue {
    fn default() -> (r: Self)
        ensures
            r == Queue::Backup,
    {
        Queue::Backup
    }
}

/// `rel` joined beneath `base`, with one `/` between them.
pub open spec fn join_path(base: Seq<char>, rel: Seq<char>) -> Seq<char> {
    if base.len() == 0 {
        rel
    } else if base.last() == '/' {
        base + rel
    } else {
        base + seq!['/'] + rel
    }
}

pub(crate) fn push_path(base: &mut String, rel: &str)
    ensures
        final(base)@ == join_path(old(base)@, rel@),
{
    proof {
        reveal_strlit("/");
    }
    let n = base.unicode_len();
    if n > 0 && base.as_str().get_char(n - 1) != '/' {
        base.append("/");
    }
    base.append(rel);
}

/// The spool root and, when one is meant, the backup beneath it.
#[derive(Clone, Debug)]
pub struct SpoolPathComponents {
    pub spool: String,
    pub backup_id: Option<BackupId>,
}

/// `<spool>/<queue>/<backup>` as `to_queue_path` builds it.
pub open spec fn queue_path(c: SpoolPathComponents, q: Queue) -> Seq<char> {
    let base = join_path(c.spool@, queue_name(q));
    match c.backup_id {
        Some(id) => join_path(base, backup_path(id)),
        None => base,
    }
}

impl SpoolPathComponents {
    pub fn new(spool: String, backup_id: BackupId) -> (r: Self)
        ensures
            r == (SpoolPathComponents { spool, backup_id: Some(backup_id) }),
    {
        Self { spool, backup_id: Some(backup_id) }
    }

    pub fn from_spool(spool: String) -> (r: Self)
        ensures
            r == (SpoolPathComponents { spool, backup_id: None }),
    {
        Self { spool, backup_id: None }
    }

    pub fn with_backup_id(self, backup_id: BackupId) -> (r: Self)
        ensures
            r == (SpoolPathComponents { backup_id: Some(backup_id), ..self }),
    {
        Self { spool: self.spool, backup_id: Some(backup_id) }
    }

    /// The storage address `s3://<vault>/<prefix>/<ulid>` of the backup.
    pub fn uri(&self) -> (r: Option<String>)
        ensures
            match self.backup_id {
                Some(id) => r matches Some(u) && u@ == seq!['s', '3', ':', '/', '/'] + delimited(
                    id,
                    '/',
                ),
                None => r.is_none(),
            },
    {
        match &self.backup_id {
            Some(id) => {
                proof {
                    reveal_strlit("s3://");
                }
                let mut uri = String::from_str("s3://");
                let s = id.to_string();
                uri.append(s.as_str());
                Some(uri)
            },
            None => None,
        }
    }

    /// The directory of `queue` for the backup, without touching the disk.
    pub fn to_queue_path(&self, queue: Queue) -> (r: String)
        ensures
            r@ == queue_path(*self, queue),
    {
        let mut path = String::new();
        push_path(&mut path, self.spool.as_str());
        push_path(&mut path, queue.dir_name());
        match &self.backup_id {
            Some(id) => {
                let rel = id.to_path_buf();
                push_path(&mut path, rel.as_str());
            },
            None => {},
        }
        path
    }
}

/// How creating a queue directory ended.
#[derive(Clone, Copy, Debug, PartialEq, Eq, Structural)]
pub enum CreateOutcome {
    /// The directory was made by this call.
    Created,
    /// The directory was there already.
    AlreadyExists,
    /// Any other failure.
    Failed,
}

/// What to do after trying to make a queue directory exclusively.
#[derive(Clone, Copy, Debug, PartialEq, Eq, Structural)]
pub enum QueueDir {
    /// Use the directory, which this call made.
    Fresh,
    /// Use the directory left by an earlier run.
    Reuse,
    /// Give up with the error of the attempt.
    Fail,
}

/// The decision of `try_with_queue_path`: a directory that was there already
/// is reused, unless what is there is not a directory.
pub fn queue_dir_decision(outcome: CreateOutcome, is_dir: bool) -> (r: QueueDir)
    ensures
        outcome == CreateOutcome::Created ==> r == QueueDir::Fresh,
        outcome == CreateOutcome::AlreadyExists ==> r == (if is_dir {
            QueueDir::Reuse
        } else {
            QueueDir::Fail
        }),
        outcome == CreateOutcome::Failed ==> r == QueueDir::Fail,
{
    match outcome {
        CreateOutcome::Created => QueueDir::Fresh,
        CreateOutcome::AlreadyExists => if is_dir {
            QueueDir::Reuse
        } else {
            QueueDir::Fail
        },
        CreateOutcome::Failed => QueueDir::Fail,
    }
}

/// What the freeze watcher does with a newly created file.
#[derive(Clone, Copy, Debug, PartialEq, Eq, Structural)]
pub enum WatchAction {
    /// The file asks the watch to end.
    Stop,
    /// Any other file.
    Ignore,
}

/// The decision of the freeze watcher on a file created in `parent`: a file
/// in the shutdown directory ends the watch.
pub fn freeze_event_action(parent: Option<&str>, shutdown: &str) -> (r: WatchAction)
    ensures
        r == (if parent matches Some(p) && p@ == shutdown@ {
            WatchAction::Stop
        } else {
            WatchAction::Ignore
        }),
{
    match parent {
        Some(p) => {
            let a = String::from_str(p);
            let b = String::from_str(shutdown);
            if a == b {
                WatchAction::Stop
            } else {
                WatchAction::Ignore
            }
        },
        None => WatchAction::Ignore,
    }
}

} // verus!
