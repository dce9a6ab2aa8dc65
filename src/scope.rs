//! Owning scopes (projects, folders, organizations, billing accounts) as a
//! tree with parent links.
use vstd::prelude::*;

verus! {

#[derive(Clone, Copy, Debug, PartialEq, Eq, Structural)]
pub enum ScopeKind {
    Project,
    Folder,
    Organization,
    BillingAccount,
}

#[derive(Debug)]
pub struct Scope {
    pub name: String,
    pub kind: ScopeKind,
    pub parent: Option<usize>,
}

/// An arena of scopes; a scope names its parent by index.
#[derive(Debug)]
pub struct ScopeTree {
    pub scopes: Vec<Scope>,
}

/// Whether walking up from `from` reaches `to` in at most `fuel` steps.
pub open spec fn climbs(t: Seq<Scope>, from: int, to: int, fuel: nat) -> bool
    decreases fuel,
{
    if from == to {
        true
    } else if fuel == 0 || !(0 <= from < t.len()) {
        false
    } else {
        match t[from].parent {
            Some(p) => climbs(t, p as int, to, (fuel - 1) as nat),
            None => false,
        }
    }
}

/// Whether `node` is `anc` or lies below it. A walk longer than the number
/// of scopes would repeat one, so it is cut there.
pub open spec fn within(t: Seq<Scope>, anc: int, node: int) -> bool {
    climbs(t, node, anc, t.len())
}

pub open spec fn kind_of(t: Seq<Scope>, i: int) -> Option<ScopeKind> {
    if 0 <= i < t.len() {
        Some(t[i].kind)
    } else {
        None
    }
}

impl ScopeTree {
    pub fn new() -> (r: ScopeTree)
        ensures
            r.scopes@.len() == 0,
    {
        ScopeTree { scopes: Vec::new() }
    }

    /// Adds a scope and returns its index.
    pub fn add(&mut self, name: &str, kind: ScopeKind, parent: Option<usize>) -> (r: usize)
        requires
            old(self).scopes@.len() < usize::MAX,
        ensures
            r == old(self).scopes@.len(),
            final(self).scopes@.len() == old(self).scopes@.len() + 1,
            final(self).scopes@.subrange(0, r as int) == old(self).scopes@,
            final(self).scopes@[r as int].name@ == name@,
            final(self).scopes@[r as int].kind == kind,
            final(self).scopes@[r as int].parent == parent,
    {
        let r = self.scopes.len();
        self.scopes.push(Scope { name: name.to_string(), kind, parent });
        assert(self.scopes@.subrange(0, r as int) =~= old(self).scopes@);
        r
    }

    /// Whether `node` is `anc` or lies below it (see `within`).
    pub fn contains(&self, anc: usize, node: usize) -> (r: bool)
        ensures
            r == within(self.scopes@, anc as int, node as int),
    {
        let n = self.scopes.len();
        let mut cur: usize = node;
        let mut fuel: usize = n;
        while cur != anc
            invariant
                n == self.scopes@.len(),
                fuel <= n,
                within(self.scopes@, anc as int, node as int) == climbs(
                    self.scopes@,
                    cur as int,
                    anc as int,
                    fuel as nat,
                ),
            decreases fuel,
        {
            if fuel == 0 || cur >= n {
                return false;
            }
            match self.scopes[cur].parent {
                Some(p) => {
                    cur = p;
                    fuel = fuel - 1;
                },
                None => return false,
            }
        }
        true
    }

    pub fn kind(&self, i: usize) -> (r: Option<ScopeKind>)
        ensures
            r == kind_of(self.scopes@, i as int),
    {
        if i < self.scopes.len() {
            Some(self.scopes[i].kind)
        } else {
            None
        }
    }
}

/// Whether `/logs/` starts at position `k` of a log name.
pub open spec fn logs_at(ln: Seq<char>, k: int) -> bool {
    0 <= k && k + 6 <= ln.len() && ln.subrange(k, k + 6) == "/logs/"@
}

/// Where the first `/logs/` at or after `k` starts, or the length when
/// there is none.
pub open spec fn logs_index(ln: Seq<char>, k: int) -> int
    decreases ln.len() - k,
{
    if k < 0 || k + 6 > ln.len() {
        ln.len() as int
    } else if logs_at(ln, k) {
        k
    } else {
        logs_index(ln, k + 1)
    }
}

/// The resource that owns a log, such as `projects/p` for
/// `projects/p/logs/syslog`.
pub open spec fn owner_of(ln: Seq<char>) -> Seq<char> {
    ln.subrange(0, logs_index(ln, 0))
}

/// The log's own identifier, after `/logs/`.
pub open spec fn log_id_of(ln: Seq<char>) -> Seq<char> {
    if logs_index(ln, 0) < ln.len() {
        ln.subrange(logs_index(ln, 0) + 6, ln.len() as int)
    } else {
        Seq::empty()
    }
}

/// The characters a decoded LOG_ID may hold.
pub open spec fn is_log_id_char(c: char) -> bool {
    ('a' <= c && c <= 'z') || ('A' <= c && c <= 'Z') || ('0' <= c && c <= '9') || c == '/' || c
        == '_' || c == '-' || c == '.'
}

/// The value of a hexadecimal digit, or -1.
pub open spec fn hex_value(c: char) -> int {
    if '0' <= c && c <= '9' {
        (c as u32) as int - 48
    } else if 'a' <= c && c <= 'f' {
        (c as u32) as int - 87
    } else if 'A' <= c && c <= 'F' {
        (c as u32) as int - 55
    } else {
        -1
    }
}

/// Whether the byte an escape `%hh` stands for is one of the characters a
/// decoded LOG_ID may hold.
pub open spec fn allowed_byte(v: int) -> bool {
    (97 <= v <= 122) || (65 <= v <= 90) || (48 <= v <= 57) || v == 47 || v == 95 || v == 45 || v
        == 46
}

/// The length of `t` from `i` on once its `%hh` escapes are decoded, when
/// every escape is well formed and every decoded character is allowed.
pub open spec fn decoded_len(t: Seq<char>, i: int) -> Option<int>
    decreases t.len() - i,
{
    if i < 0 || i >= t.len() {
        Some(0)
    } else if t[i] == '%' {
        if i + 2 < t.len() && hex_value(t[i + 1]) >= 0 && hex_value(t[i + 2]) >= 0 && allowed_byte(
            hex_value(t[i + 1]) * 16 + hex_value(t[i + 2]),
        ) {
            match decoded_len(t, i + 3) {
                Some(n) => Some(n + 1),
                None => None,
            }
        } else {
            None
        }
    } else if is_log_id_char(t[i]) {
        match decoded_len(t, i + 1) {
            Some(n) => Some(n + 1),
            None => None,
        }
    } else {
        None
    }
}

/// A well-formed log name: `<owner>/logs/<LOG_ID>`, the owner not empty,
/// and the LOG_ID URL-encoded: once decoded, 1 to 511 characters among
/// letters, digits, `/`, `_`, `-` and `.`.
pub open spec fn log_name_valid(ln: Seq<char>) -> bool {
    &&& logs_index(ln, 0) > 0
    &&& logs_index(ln, 0) < ln.len()
    &&& match decoded_len(log_id_of(ln), 0) {
        Some(n) => 0 < n < 512,
        None => false,
    }
}

pub open spec fn plus(o: Option<int>, n: int) -> Option<int> {
    match o {
        Some(m) => Some(m + n),
        None => None,
    }
}

fn hex_val(c: char) -> (r: i64)
    ensures
        r as int == hex_value(c),
{
    if '0' <= c && c <= '9' {
        c as u32 as i64 - 48
    } else if 'a' <= c && c <= 'f' {
        c as u32 as i64 - 87
    } else if 'A' <= c && c <= 'F' {
        c as u32 as i64 - 55
    } else {
        -1
    }
}

fn allowed_byte_exec(v: i64) -> (r: bool)
    ensures
        r == allowed_byte(v as int),
{
    (97 <= v && v <= 122) || (65 <= v && v <= 90) || (48 <= v && v <= 57) || v == 47 || v == 95
        || v == 45 || v == 46
}

/// Computes `decoded_len(t, 0)`.
pub fn decoded_length(t: &Vec<char>) -> (r: Option<usize>)
    ensures
        match r {
            Some(n) => decoded_len(t@, 0) == Some(n as int),
            None => decoded_len(t@, 0) is None,
        },
{
    let len = t.len();
    let mut i: usize = 0;
    let mut n: usize = 0;
    while i < len
        invariant
            len == t@.len(),
            i <= len,
            n <= i,
            decoded_len(t@, 0) == plus(decoded_len(t@, i as int), n as int),
        decreases len - i,
    {
        if t[i] == '%' {
            if len - i > 2 {
                let a = hex_val(t[i + 1]);
                let b = hex_val(t[i + 2]);
                if a >= 0 && b >= 0 && allowed_byte_exec(a * 16 + b) {
                    i = i + 3;
                    n = n + 1;
                    continue;
                }
            }
            return None;
        } else if is_log_id_char_exec(t[i]) {
            i = i + 1;
            n = n + 1;
        } else {
            return None;
        }
    }
    Some(n)
}

/// Finds `logs_index(ln, 0)`.
pub fn find_logs(ln: &Vec<char>) -> (r: usize)
    ensures
        r as int == logs_index(ln@, 0),
        r <= ln@.len(),
        r < ln@.len() ==> logs_at(ln@, r as int),
{
    proof {
        reveal_strlit("/logs/");
    }
    assert("/logs/"@.len() == 6);
    let n = ln.len();
    let mut k: usize = 0;
    while k < n && n - k >= 6
        invariant
            n == ln@.len(),
            k <= n,
            "/logs/"@.len() == 6,
            logs_index(ln@, 0) == logs_index(ln@, k as int),
        decreases n - k,
    {
        let mut same = true;
        let mut j: usize = 0;
        while j < 6
            invariant
                k + 6 <= n,
                n == ln@.len(),
                j <= 6,
                "/logs/"@.len() == 6,
                same ==> forall|t: int| 0 <= t < j ==> ln@[k + t] == "/logs/"@[t],
                !same ==> !logs_at(ln@, k as int),
            decreases 6 - j,
        {
            let c = "/logs/".get_char(j);
            if same && ln[k + j] != c {
                same = false;
                assert(ln@.subrange(k as int, k + 6)[j as int] != "/logs/"@[j as int]);
            }
            j = j + 1;
        }
        if same {
            assert(ln@.subrange(k as int, k + 6) =~= "/logs/"@);
            return k;
        }
        k = k + 1;
    }
    n
}

fn is_log_id_char_exec(c: char) -> (r: bool)
    ensures
        r == is_log_id_char(c),
{
    ('a' <= c && c <= 'z') || ('A' <= c && c <= 'Z') || ('0' <= c && c <= '9') || c == '/' || c
        == '_' || c == '-' || c == '.'
}

/// Checks `log_name_valid`.
pub fn valid_log_name(ln: &Vec<char>) -> (r: bool)
    ensures
        r == log_name_valid(ln@),
{
    let k = find_logs(ln);
    let n = ln.len();
    if k == 0 || k >= n {
        return false;
    }
    let id = slice_id(ln, k);
    match decoded_length(&id) {
        Some(m) => 0 < m && m < 512,
        None => false,
    }
}

fn slice_id(ln: &Vec<char>, k: usize) -> (r: Vec<char>)
    requires
        k as int == logs_index(ln@, 0),
        k < ln@.len(),
        logs_at(ln@, k as int),
    ensures
        r@ == log_id_of(ln@),
{
    let n = ln.len();
    crate::parse::slice_chars(ln, k + 6, n)
}

/// The scope named `name`, the first with that name.
pub open spec fn scope_named(t: Seq<Scope>, name: Seq<char>) -> Option<int>
    decreases t.len(),
{
    if t.len() == 0 {
        None
    } else {
        match scope_named(t.drop_last(), name) {
            Some(i) => Some(i),
            None => if t.last().name@ == name {
                Some(t.len() - 1)
            } else {
                None
            },
        }
    }
}

impl ScopeTree {
    /// Finds the scope named `name` (see `scope_named`).
    pub fn find(&self, name: &Vec<char>) -> (r: Option<usize>)
        ensures
            match r {
                Some(i) => scope_named(self.scopes@, name@) == Some(i as int),
                None => scope_named(self.scopes@, name@) is None,
            },
    {
        let mut i: usize = 0;
        while i < self.scopes.len()
            invariant
                i <= self.scopes@.len(),
                scope_named(self.scopes@.subrange(0, i as int), name@) is None,
            decreases self.scopes@.len() - i,
        {
            let ghost pre = self.scopes@.subrange(0, i as int + 1);
            assert(pre.drop_last() =~= self.scopes@.subrange(0, i as int));
            let cs = crate::text::to_chars(self.scopes[i].name.as_str());
            if crate::text::compare_text(&cs, name) == 0 {
                proof {
                    lemma_scope_named_prefix(self.scopes@, name@, i as int + 1);
                }
                return Some(i);
            }
            i = i + 1;
        }
        assert(self.scopes@.subrange(0, i as int) =~= self.scopes@);
        None
    }
}

proof fn lemma_scope_named_prefix(t: Seq<Scope>, name: Seq<char>, k: int)
    requires
        0 <= k <= t.len(),
        scope_named(t.subrange(0, k), name) is Some,
    ensures
        scope_named(t, name) == scope_named(t.subrange(0, k), name),
    decreases t.len() - k,
{
    if k < t.len() {
        let pre = t.subrange(0, k + 1);
        assert(pre.drop_last() =~= t.subrange(0, k));
        lemma_scope_named_prefix(t, name, k + 1);
    } else {
        assert(t.subrange(0, k) =~= t);
    }
}

/// The scope a log name belongs to: the scope named by its owner, or the
/// index past the last scope when none is.
pub open spec fn scope_of_log(t: Seq<Scope>, ln: Seq<char>) -> int {
    match scope_named(t, owner_of(ln)) {
        Some(i) => i,
        None => t.len() as int,
    }
}

impl ScopeTree {
    /// Finds the scope of a log name (see `scope_of_log`).
    pub fn scope_of(&self, ln: &String) -> (r: usize)
        ensures
            r as int == scope_of_log(self.scopes@, ln@),
    {
        let cs = crate::text::to_chars(ln.as_str());
        let k = find_logs(&cs);
        let owner = crate::parse::slice_chars(&cs, 0, k);
        match self.find(&owner) {
            Some(i) => i,
            None => self.scopes.len(),
        }
    }
}

} // verus!
