//! Backup identities: a vault, an optional prefix and an optional ULID.
use vstd::prelude::*;
use crate::path::{
    canonical, canonical_relative_path, is_normal, join_segments, lemma_canonical_names,
    lemma_join_concat, lemma_split_join, resolve, split_segments,
};

verus! {

/// The `n` lowest digits of `v` in base `b`, most significant first, each
/// written by `digit`.
pub open spec fn radix_digits(v: nat, b: nat, n: nat, digit: spec_fn(int) -> char) -> Seq<char>
    decreases n,
{
    if n == 0 || b == 0 {
        Seq::empty()
    } else {
        radix_digits(v / b, b, (n - 1) as nat, digit).push(digit((v % b) as int))
    }
}

/// A lower-case hexadecimal digit.
pub open spec fn hex_char(d: int) -> char {
    seq!['0', '1', '2', '3', '4', '5', '6', '7', '8', '9', 'a', 'b', 'c', 'd', 'e', 'f'][d]
}

/// A digit of Crockford's base 32.
pub open spec fn crockford_char(d: int) -> char {
    seq![
        '0', '1', '2', '3', '4', '5', '6', '7', '8', '9', 'A', 'B', 'C', 'D', 'E', 'F',
        'G', 'H', 'J', 'K', 'M', 'N', 'P', 'Q', 'R', 'S', 'T', 'V', 'W', 'X', 'Y', 'Z',
    ][d]
}

/// The hyphenated lower-case text of the UUID with value `v`: its 32
/// hexadecimal digits, most significant first, in groups of 8, 4, 4, 4 and
/// 12 joined by `-`.
pub open spec fn uuid_text(v: u128) -> Seq<char> {
    let h = radix_digits(v as nat, 16, 32, |d: int| hex_char(d));
    h.subrange(0, 8) + seq!['-'] + h.subrange(8, 12) + seq!['-'] + h.subrange(12, 16) + seq!['-']
        + h.subrange(16, 20) + seq!['-'] + h.subrange(20, 32)
}

/// The Crockford base-32 text of the ULID with value `v`: 26 digits of five
/// bits each, most significant first.
pub open spec fn ulid_text(v: u128) -> Seq<char> {
    radix_digits(v as nat, 32, 26, |d: int| crockford_char(d))
}

/// Relies on `uuid::Uuid::from_u128` and its `Display`: the hyphenated,
/// lower-case text of the 128-bit value.
#[verifier::external_body]
fn format_uuid(v: u128) -> (r: String)
    ensures
        r@ == uuid_text(v),
{
    uuid::Uuid::from_u128(v).to_string()
}

/// Relies on `ulid::Ulid::to_string`: the 26-character Crockford base-32 text
/// of the 128-bit value.
#[verifier::external_body]
fn format_ulid(v: u128) -> (r: String)
    ensures
        r@ == ulid_text(v),
{
    ulid::Ulid(v).to_string()
}

/// Relies on `char::to_string`: the string that holds just `c`.
#[verifier::external_body]
fn char_string(c: char) -> (r: String)
    ensures
        r@ == seq![c],
{
    c.to_string()
}

/// The canonical form of a prefix, as text.
pub fn canonical_prefix(prefix: &str) -> (r: String)
    ensures
        r@ == canonical(prefix@),
{
    canonical_relative_path(prefix)
}

/// Names one backup: the vault (a UUID, as its 128-bit value), an optional
/// prefix inside the vault, and an optional ULID (as its 128-bit value).
#[derive(Clone, Debug)]
pub struct BackupId {
    pub vault: u128,
    pub prefix: Option<String>,
    pub ulid: Option<u128>,
}

/// The key inside a vault, from the texts of its parts: the canonical
/// prefix, then the ULID, joined by `d`.
pub open spec fn key_text(prefix: Option<Seq<char>>, ulid: Option<Seq<char>>, d: char) -> Seq<char> {
    match (kept_prefix(prefix), ulid) {
        (Some(c), Some(u)) => c + seq![d] + u,
        (Some(c), None) => c,
        (None, Some(u)) => u,
        (None, None) => Seq::empty(),
    }
}

/// The canonical form of the prefix, where there is one and it is not empty.
pub open spec fn kept_prefix(prefix: Option<Seq<char>>) -> Option<Seq<char>> {
    match prefix {
        Some(p) => if canonical(p).len() > 0 {
            Some(canonical(p))
        } else {
            None
        },
        None => None,
    }
}

/// The vault text, then the key, joined by `d`; the key and `d` are left out
/// where there is neither a non-empty canonical prefix nor a ULID.
pub open spec fn delimited_text(
    vault: Seq<char>,
    prefix: Option<Seq<char>>,
    ulid: Option<Seq<char>>,
    d: char,
) -> Seq<char> {
    if kept_prefix(prefix).is_some() || ulid.is_some() {
        vault + seq![d] + key_text(prefix, ulid, d)
    } else {
        vault
    }
}

/// The relative directory from the texts of the parts: vault, canonical
/// prefix (when not empty) and ULID, as path segments.
pub open spec fn path_text(vault: Seq<char>, prefix: Option<Seq<char>>, ulid: Option<Seq<char>>) -> Seq<char> {
    let with_prefix = match prefix {
        Some(p) => if canonical(p).len() > 0 {
            vault + seq!['/'] + canonical(p)
        } else {
            vault
        },
        None => vault,
    };
    match ulid {
        Some(u) => with_prefix + seq!['/'] + u,
        None => with_prefix,
    }
}

pub open spec fn prefix_view(prefix: Option<String>) -> Option<Seq<char>> {
    match prefix {
        Some(p) => Some(p@),
        None => None,
    }
}

pub open spec fn ulid_view(ulid: Option<u128>) -> Option<Seq<char>> {
    match ulid {
        Some(u) => Some(ulid_text(u)),
        None => None,
    }
}

/// The key of a backup inside its vault.
pub open spec fn vault_key(prefix: Option<String>, ulid: Option<u128>, d: char) -> Seq<char> {
    key_text(prefix_view(prefix), ulid_view(ulid), d)
}

/// The vault, then the vault key, joined by `d`.
pub open spec fn delimited(id: BackupId, d: char) -> Seq<char> {
    delimited_text(uuid_text(id.vault), prefix_view(id.prefix), ulid_view(id.ulid), d)
}

/// The relative directory of a backup.
pub open spec fn backup_path(id: BackupId) -> Seq<char> {
    path_text(uuid_text(id.vault), prefix_view(id.prefix), ulid_view(id.ulid))
}

fn str_view(s: Option<&str>) -> (r: Option<String>)
    ensures
        match s {
            Some(t) => r matches Some(u) && u@ == t@,
            None => r.is_none(),
        },
{
    match s {
        Some(t) => Some(String::from_str(t)),
        None => None,
    }
}

/// Joins the texts of a backup's parts into its relative directory.
pub fn compose_path(vault: &str, prefix: Option<&str>, ulid: Option<&str>) -> (r: String)
    ensures
        r@ == path_text(
            vault@,
            match prefix {
                Some(p) => Some(p@),
                None => None,
            },
            match ulid {
                Some(u) => Some(u@),
                None => None,
            },
        ),
{
    proof {
        reveal_strlit("/");
    }
    let mut path = String::from_str(vault);
    match prefix {
        Some(p) => {
            let c = canonical_relative_path(p);
            if c.unicode_len() > 0 {
                path.append("/");
                path.append(c.as_str());
            }
        },
        None => {},
    }
    match ulid {
        Some(u) => {
            path.append("/");
            path.append(u);
        },
        None => {},
    }
    path
}

/// Joins the texts of the canonical prefix and the ULID with `delimiter`.
pub fn compose_key(prefix: Option<&str>, ulid: Option<&str>, delimiter: char) -> (r: String)
    ensures
        r@ == key_text(
            match prefix {
                Some(p) => Some(p@),
                None => None,
            },
            match ulid {
                Some(u) => Some(u@),
                None => None,
            },
            delimiter,
        ),
{
    let mut key = String::new();
    let kept = kept_canonical(prefix);
    match kept {
        Some(c) => {
            key.append(c.as_str());
            match ulid {
                Some(u) => {
                    let d = char_string(delimiter);
                    key.append(d.as_str());
                    key.append(u);
                },
                None => {},
            }
        },
        None => match ulid {
            Some(u) => {
                key.append(u);
            },
            None => {},
        },
    }
    key
}

/// The canonical form of the prefix, where there is one and it is not empty.
fn kept_canonical(prefix: Option<&str>) -> (r: Option<String>)
    ensures
        match kept_prefix(
            match prefix {
                Some(p) => Some(p@),
                None => None,
            },
        ) {
            Some(c) => r matches Some(s) && s@ == c,
            None => r.is_none(),
        },
{
    match prefix {
        Some(p) => {
            let c = canonical_prefix(p);
            if c.unicode_len() > 0 {
                Some(c)
            } else {
                None
            }
        },
        None => None,
    }
}

/// Joins the vault text and the key with `delimiter`.
pub fn compose_delimited(vault: &str, prefix: Option<&str>, ulid: Option<&str>, delimiter: char) -> (r: String)
    ensures
        r@ == delimited_text(
            vault@,
            match prefix {
                Some(p) => Some(p@),
                None => None,
            },
            match ulid {
                Some(u) => Some(u@),
                None => None,
            },
            delimiter,
        ),
{
    let mut s = String::from_str(vault);
    let kept = kept_canonical(prefix);
    if kept.is_some() || ulid.is_some() {
        let d = char_string(delimiter);
        s.append(d.as_str());
        let k = compose_key(prefix, ulid, delimiter);
        s.append(k.as_str());
    }
    s
}

impl BackupId {
    pub fn new(vault: u128, prefix: Option<&str>, ulid: u128) -> (r: Self)
        ensures
            r.vault == vault,
            r.ulid == Some(ulid),
            match prefix {
                Some(p) => r.prefix matches Some(q) && q@ == p@,
                None => r.prefix.is_none(),
            },
    {
        Self { vault, prefix: str_view(prefix), ulid: Some(ulid) }
    }

    pub fn from_prefix(vault: u128, prefix: &str) -> (r: Self)
        ensures
            r.vault == vault,
            r.ulid.is_none(),
            r.prefix matches Some(q) && q@ == prefix@,
    {
        Self { vault, prefix: Some(String::from_str(prefix)), ulid: None }
    }

    pub fn with_vault(self, vault: u128) -> (r: Self)
        ensures
            r == (BackupId { vault, ..self }),
    {
        Self { vault, prefix: self.prefix, ulid: self.ulid }
    }

    pub fn with_prefix(self, prefix: &str) -> (r: Self)
        ensures
            r.vault == self.vault,
            r.ulid == self.ulid,
            r.prefix matches Some(q) && q@ == prefix@,
    {
        Self { vault: self.vault, prefix: Some(String::from_str(prefix)), ulid: self.ulid }
    }

    pub fn with_ulid(self, ulid: u128) -> (r: Self)
        ensures
            r == (BackupId { ulid: Some(ulid), ..self }),
    {
        Self { vault: self.vault, prefix: self.prefix, ulid: Some(ulid) }
    }

    fn ulid_string(&self) -> (r: Option<String>)
        ensures
            match self.ulid {
                Some(u) => r matches Some(t) && t@ == ulid_text(u),
                None => r.is_none(),
            },
    {
        match self.ulid {
            Some(u) => Some(format_ulid(u)),
            None => None,
        }
    }

    fn prefix_str(&self) -> (r: Option<&str>)
        ensures
            match self.prefix {
                Some(p) => r matches Some(t) && t@ == p@,
                None => r.is_none(),
            },
    {
        match &self.prefix {
            Some(p) => Some(p.as_str()),
            None => None,
        }
    }

    /// `<vault>/<prefix>/<ulid>`, leaving out what is absent or empty.
    pub fn to_path_buf(&self) -> (r: String)
        ensures
            r@ == backup_path(*self),
    {
        let vault = format_uuid(self.vault);
        let ulid = self.ulid_string();
        let u: Option<&str> = match &ulid {
            Some(t) => Some(t.as_str()),
            None => None,
        };
        compose_path(vault.as_str(), self.prefix_str(), u)
    }

    /// The key of the backup inside its vault, with `delimiter` between the
    /// canonical prefix and the ULID.
    pub fn to_vault_key(&self, delimiter: char) -> (r: String)
        ensures
            r@ == vault_key(self.prefix, self.ulid, delimiter),
    {
        let ulid = self.ulid_string();
        let u: Option<&str> = match &ulid {
            Some(t) => Some(t.as_str()),
            None => None,
        };
        compose_key(self.prefix_str(), u, delimiter)
    }

    /// The vault and the vault key, joined by `delimiter`.
    pub fn to_delimited_string(&self, delimiter: char) -> (r: String)
        ensures
            r@ == delimited(*self, delimiter),
    {
        let vault = format_uuid(self.vault);
        let ulid = self.ulid_string();
        let u: Option<&str> = match &ulid {
            Some(t) => Some(t.as_str()),
            None => None,
        };
        compose_delimited(vault.as_str(), self.prefix_str(), u, delimiter)
    }

    /// The storage form `<vault>/<prefix>/<ulid>`.
    pub fn to_string(&self) -> (r: String)
        ensures
            r@ == delimited(*self, '/'),
    {
        self.to_delimited_string('/')
    }
}

/// The ULID of a new backup: the one given, else the one made from the
/// timestamp given, else `fresh`.
pub fn pick_ulid(ulid: Option<u128>, timestamp: Option<u128>, fresh: u128) -> (r: u128)
    ensures
        r == match (ulid, timestamp) {
            (Some(u), _) => u,
            (None, Some(t)) => t,
            (None, None) => fresh,
        },
{
    match ulid {
        Some(u) => u,
        None => match timestamp {
            Some(t) => t,
            None => fresh,
        },
    }
}

proof fn lemma_hex_no_slash(d: int)
    requires
        0 <= d < 16,
    ensures
        hex_char(d) != '/',
{
        if d == 0 {
        } else if d == 1 {
        } else if d == 2 {
        } else if d == 3 {
        } else if d == 4 {
        } else if d == 5 {
        } else if d == 6 {
        } else if d == 7 {
        } else if d == 8 {
        } else if d == 9 {
        } else if d == 10 {
        } else if d == 11 {
        } else if d == 12 {
        } else if d == 13 {
        } else if d == 14 {
        } else if d == 15 {
        }
}

proof fn lemma_crockford_no_slash(d: int)
    requires
        0 <= d < 32,
    ensures
        crockford_char(d) != '/',
{
        if d == 0 {
        } else if d == 1 {
        } else if d == 2 {
        } else if d == 3 {
        } else if d == 4 {
        } else if d == 5 {
        } else if d == 6 {
        } else if d == 7 {
        } else if d == 8 {
        } else if d == 9 {
        } else if d == 10 {
        } else if d == 11 {
        } else if d == 12 {
        } else if d == 13 {
        } else if d == 14 {
        } else if d == 15 {
        } else if d == 16 {
        } else if d == 17 {
        } else if d == 18 {
        } else if d == 19 {
        } else if d == 20 {
        } else if d == 21 {
        } else if d == 22 {
        } else if d == 23 {
        } else if d == 24 {
        } else if d == 25 {
        } else if d == 26 {
        } else if d == 27 {
        } else if d == 28 {
        } else if d == 29 {
        } else if d == 30 {
        } else if d == 31 {
        }
}

proof fn lemma_digits_no_slash(v: nat, b: nat, n: nat, digit: spec_fn(int) -> char)
    requires
        b > 0,
        forall|d: int| 0 <= d < b ==> #[trigger] digit(d) != '/',
    ensures
        radix_digits(v, b, n, digit).len() == n,
        !radix_digits(v, b, n, digit).contains('/'),
    decreases n,
{
    if n > 0 {
        lemma_digits_no_slash(v / b, b, (n - 1) as nat, digit);
        let t = radix_digits(v / b, b, (n - 1) as nat, digit);
        let s = t.push(digit((v % b) as int));
        assert(!s.contains('/')) by {
            if s.contains('/') {
                let j = choose|j: int| 0 <= j < s.len() && s[j] == '/';
                if j < t.len() {
                    assert(t[j] == '/');
                }
            }
        }
    }
}

proof fn lemma_id_texts_normal(vault: u128, ulid: u128)
    ensures
        is_normal(uuid_text(vault)),
        is_normal(ulid_text(ulid)),
{
    let hf = |d: int| hex_char(d);
    let cf = |d: int| crockford_char(d);
    assert forall|d: int| 0 <= d < 16 implies #[trigger] hf(d) != '/' by {
        lemma_hex_no_slash(d);
    }
    assert forall|d: int| 0 <= d < 32 implies #[trigger] cf(d) != '/' by {
        lemma_crockford_no_slash(d);
    }
    lemma_digits_no_slash(vault as nat, 16, 32, hf);
    lemma_digits_no_slash(ulid as nat, 32, 26, cf);
    let h = radix_digits(vault as nat, 16, 32, hf);
    let u = uuid_text(vault);
    assert(u.len() == 36);
    assert(!u.contains('/')) by {
        if u.contains('/') {
            let j = choose|j: int| 0 <= j < u.len() && u[j] == '/';
            if j < 8 {
                assert(u[j] == h[j]);
            } else if 8 < j < 13 {
                assert(u[j] == h[j - 1]);
            } else if 13 < j < 18 {
                assert(u[j] == h[j - 2]);
            } else if 18 < j < 23 {
                assert(u[j] == h[j - 3]);
            } else if 23 < j {
                assert(u[j] == h[j - 4]);
            }
        }
    }
    assert(ulid_text(ulid).len() == 26);
}

/// The directory of a backup is relative and names only: it does not start
/// with `/`, and none of its segments is empty, `.` or `..`.
pub proof fn lemma_backup_path_is_relative(id: BackupId)
    ensures
        backup_path(id)[0] != '/',
        forall|i: int|
            0 <= i < split_segments(backup_path(id)).len() ==> is_normal(
                #[trigger] split_segments(backup_path(id))[i],
            ),
{
    lemma_id_texts_normal(id.vault, match id.ulid {
        Some(u) => u,
        None => 0,
    });
    let v = uuid_text(id.vault);
    let r = match prefix_view(id.prefix) {
        Some(p) => resolve(split_segments(p)),
        None => Seq::empty(),
    };
    if let Some(p) = prefix_view(id.prefix) {
        lemma_canonical_names(p);
    }
    let head = seq![v] + r;
    assert(join_segments(seq![v]) == v);
    if r.len() > 0 {
        lemma_join_concat(seq![v], r);
    } else {
        assert(head == seq![v]);
    }
    assert(join_segments(head) == path_text(v, prefix_view(id.prefix), None));
    let names = match id.ulid {
        Some(u) => head.push(ulid_text(u)),
        None => head,
    };
    if let Some(u) = id.ulid {
        assert(names.drop_last() == head);
    }
    assert(join_segments(names) == backup_path(id));
    assert forall|i: int| 0 <= i < names.len() implies is_normal(#[trigger] names[i]) by {
        if 0 < i < head.len() {
            assert(names[i] == r[i - 1]);
        }
    }
    lemma_split_join(names);
    assert(names[0] == v);
    assert(v[0] != '/') by {
        if v[0] == '/' {
            assert(v.contains('/'));
        }
    }
}

} // verus!
