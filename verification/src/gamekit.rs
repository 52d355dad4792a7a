//! The games' shared kit: the seed every game starts its generator from, the keys their saves
//! live under, and the registries that decide which save and background hooks run when the app
//! leaves the foreground, and what the close button does. Reading the clock, storage and the
//! platform's lifecycle belong to the page; the decisions are here.

use vstd::prelude::*;
use vstd::string::StringSliceAdditionalSpecFns;
use vstd::string::StrSliceExecFns;
use vstd::utf8::encode_utf8;

verus! {

/// A seed pinned for scripted runs, if one is. A pinned seed is always odd.
pub struct Seeds {
    fixed: Option<u64>,
}

impl Seeds {
    /// A pinned seed is odd, so a xorshift seeded with it never reaches zero.
    #[verifier::type_invariant]
    spec fn pinned_is_odd(self) -> bool {
        self.fixed matches Some(f) ==> f & 1 == 1
    }
}

impl View for Seeds {
    type V = Option<u64>;

    closed spec fn view(&self) -> Option<u64> {
        self.fixed
    }
}

impl Seeds {
    /// Nothing pinned.
    pub fn new() -> (s: Seeds)
        ensures
            s@ is None,
    {
        Seeds { fixed: None }
    }

    /// The pinned seed, if any.
    pub fn pinned(&self) -> (p: Option<u64>)
        ensures
            p == self@,
            p matches Some(f) ==> f & 1 == 1,
    {
        proof {
            use_type_invariant(self);
        }
        self.fixed
    }
}

/// Make every later [`seed`] return `seed`, made odd: one value for all games, so a scripted
/// walkthrough meets the same puzzle, brick layout and piece order on every run.
pub fn set_seed_override(seeds: &mut Seeds, seed: u64)
    ensures
        final(seeds)@ == Some(seed | 1),
{
    assert((seed | 1) & 1 == 1) by (bit_vector);
    seeds.fixed = Some(seed | 1);
}

/// The seed handed out for the clock reading `raw`: the pinned one if any, else `raw` made odd.
pub open spec fn seed_of(pinned: Option<u64>, raw: u64) -> u64 {
    match pinned {
        Some(f) => f,
        None => raw | 1,
    }
}

/// A fresh generator seed per game start: the pinned one if any, else `raw` (the clock's
/// nanoseconds, or entropy where there is no clock) made odd. Always odd, so a xorshift never
/// seeds to zero.
pub fn seed(seeds: &Seeds, raw: u64) -> (s: u64)
    ensures
        s == seed_of(seeds@, raw),
        s & 1 == 1,
{
    proof {
        use_type_invariant(seeds);
    }
    assert((raw | 1) & 1 == 1) by (bit_vector);
    match seeds.fixed {
        Some(f) => f,
        None => raw | 1,
    }
}

/// The value of a decimal digit byte.
pub open spec fn digits_value(d: Seq<u8>) -> int
    decreases d.len(),
{
    if d.len() == 0 {
        0
    } else {
        digits_value(d.drop_last()) * 10 + (d.last() - 48)
    }
}

/// Whether every byte is a decimal digit.
pub open spec fn all_digits(d: Seq<u8>) -> bool {
    forall|k: int| 0 <= k < d.len() ==> 48 <= #[trigger] d[k] <= 57
}

/// The unsigned integer a text spells: an optional `+`, then one or more decimal digits, whose
/// value fits in 64 bits; anything else spells none.
pub open spec fn seed_text_value(t: Seq<u8>) -> Option<u64> {
    let d = if t.len() > 0 && t[0] == 43 { t.skip(1) } else { t };
    if d.len() > 0 && all_digits(d) && digits_value(d) <= u64::MAX {
        Some(digits_value(d) as u64)
    } else {
        None
    }
}

/// The seed a pinning setting asks for: its text (already trimmed of surrounding whitespace)
/// read as an unsigned 64-bit decimal number, or none when it is not one.
pub fn parse_seed(text: &str) -> (v: Option<u64>)
    ensures
        v == seed_text_value(text.spec_bytes()),
{
    let t = text.as_bytes();
    let start: usize = if t.len() > 0 && t[0] == 43 { 1 } else { 0 };
    let ghost d = if t@.len() > 0 && t@[0] == 43 { t@.skip(1) } else { t@ };
    assert(d =~= t@.skip(start as int));
    if start >= t.len() {
        return None;
    }
    let mut acc: u64 = 0;
    let mut i: usize = start;
    while i < t.len()
        invariant
            start <= i <= t@.len(),
            start < t@.len(),
            t@ == text.spec_bytes(),
            d =~= t@.skip(start as int),
            seed_text_value(t@) == (if d.len() > 0 && all_digits(d) && digits_value(d) <= u64::MAX {
                Some(digits_value(d) as u64)
            } else {
                None
            }),
            all_digits(t@.subrange(start as int, i as int)),
            acc as int == digits_value(t@.subrange(start as int, i as int)),
        decreases t.len() - i,
    {
        let b = t[i];
        let ghost before = t@.subrange(start as int, i as int);
        let ghost after = t@.subrange(start as int, i + 1);
        assert(after.drop_last() =~= before);
        assert(after =~= d.subrange(0, i - start + 1));
        if b < 48 || b > 57 {
            proof {
                assert(d[i - start] == b);
            }
            return None;
        }
        assert(all_digits(after));
        let dv: u64 = (b - 48) as u64;
        assert(digits_value(after) == acc * 10 + dv);
        let next = acc.checked_mul(10);
        if next.is_none() {
            proof {
                if all_digits(d) {
                    lemma_prefix_value(d, i - start + 1);
                }
            }
            return None;
        }
        let m: u64 = next.unwrap();
        let sum = m.checked_add(dv);
        if sum.is_none() {
            proof {
                if all_digits(d) {
                    lemma_prefix_value(d, i - start + 1);
                }
            }
            return None;
        }
        acc = sum.unwrap();
        i += 1;
    }
    assert(t@.subrange(start as int, t@.len() as int) =~= d);
    Some(acc)
}

proof fn lemma_digits_nonneg(d: Seq<u8>)
    requires
        all_digits(d),
    ensures
        digits_value(d) >= 0,
    decreases d.len(),
{
    if d.len() > 0 {
        assert(all_digits(d.drop_last()));
        lemma_digits_nonneg(d.drop_last());
    }
}

/// A digit string's value is at least that of any of its prefixes.
proof fn lemma_prefix_value(d: Seq<u8>, k: int)
    requires
        all_digits(d),
        0 <= k <= d.len(),
    ensures
        digits_value(d.subrange(0, k)) <= digits_value(d),
    decreases d.len() - k,
{
    if k < d.len() {
        lemma_prefix_value(d, k + 1);
        let p = d.subrange(0, k + 1);
        assert(p.drop_last() =~= d.subrange(0, k));
        assert(all_digits(d.subrange(0, k)));
        lemma_digits_nonneg(d.subrange(0, k));
        assert(48 <= p.last());
    } else {
        assert(d.subrange(0, k) =~= d);
    }
}

/// Whether `c` is white space: a character of Unicode's White_Space property, what
/// `char::is_whitespace` tests.
pub open spec fn is_space(c: char) -> bool {
    let u = c as u32;
    ||| 0x09 <= u <= 0x0D
    ||| u == 0x20
    ||| u == 0x85
    ||| u == 0xA0
    ||| u == 0x1680
    ||| 0x2000 <= u <= 0x200A
    ||| u == 0x2028
    ||| u == 0x2029
    ||| u == 0x202F
    ||| u == 0x205F
    ||| u == 0x3000
}

fn space(c: char) -> (b: bool)
    ensures
        b == is_space(c),
{
    let u = c as u32;
    (0x09 <= u && u <= 0x0D) || u == 0x20 || u == 0x85 || u == 0xA0 || u == 0x1680 || (0x2000 <= u
        && u <= 0x200A) || u == 0x2028 || u == 0x2029 || u == 0x202F || u == 0x205F || u == 0x3000
}

/// `s` without its leading white space.
pub open spec fn trim_start(s: Seq<char>) -> Seq<char>
    decreases s.len(),
{
    if s.len() > 0 && is_space(s[0]) {
        trim_start(s.skip(1))
    } else {
        s
    }
}

/// `s` without its trailing white space.
pub open spec fn trim_end(s: Seq<char>) -> Seq<char>
    decreases s.len(),
{
    if s.len() > 0 && is_space(s.last()) {
        trim_end(s.drop_last())
    } else {
        s
    }
}

/// `s` without white space at either end.
pub open spec fn trimmed(s: Seq<char>) -> Seq<char> {
    trim_end(trim_start(s))
}

/// `text` without white space at either end.
pub fn trim(text: &str) -> (t: &str)
    ensures
        t@ == trimmed(text@),
{
    let n: usize = text.unicode_len();
    let mut i: usize = 0;
    assert(text@.skip(0) =~= text@);
    while i < n && space(text.get_char(i))
        invariant
            n == text@.len(),
            0 <= i <= n,
            trim_start(text@) == trim_start(text@.skip(i as int)),
        decreases n - i,
    {
        assert(text@.skip(i as int).skip(1) =~= text@.skip(i + 1));
        i += 1;
    }
    let ghost front = text@.skip(i as int);
    proof {
        if i == n {
            assert(front.len() == 0);
        } else {
            assert(front[0] == text@[i as int]);
        }
        assert(trim_start(text@) == front);
    }
    let mut j: usize = n;
    while j > i && space(text.get_char(j - 1))
        invariant
            n == text@.len(),
            0 <= i <= j <= n,
            front == text@.skip(i as int),
            trim_end(front) == trim_end(text@.subrange(i as int, j as int)),
        decreases j,
    {
        assert(text@.subrange(i as int, j as int).drop_last() =~= text@.subrange(i as int, j - 1));
        j -= 1;
    }
    proof {
        assert(front =~= text@.subrange(i as int, n as int));
        let kept = text@.subrange(i as int, j as int);
        if j > i {
            assert(kept.last() == text@[j - 1]);
        }
    }
    text.substring_char(i, j)
}

/// The seed a pinning setting asks for: its text, trimmed of white space at both ends, read as
/// an unsigned 64-bit decimal number; none when there is no setting or it is no such number.
pub open spec fn setting_seed(setting: Option<Seq<char>>) -> Option<u64> {
    match setting {
        Some(t) => seed_text_value(encode_utf8(trimmed(t))),
        None => None,
    }
}

/// What is pinned after reading `setting`: the seed it asks for, made odd, or what was pinned
/// before when it asks for none.
pub open spec fn pinned_after(before: Option<u64>, setting: Option<Seq<char>>) -> Option<u64> {
    match setting_seed(setting) {
        Some(n) => Some(n | 1),
        None => before,
    }
}

/// Pin every later seed from the environment's setting, if it names a number: the setting's
/// text, trimmed, read as an unsigned decimal number. A missing or unreadable setting leaves
/// the seeds as they were.
pub fn pin_seed(seeds: &mut Seeds, setting: Option<&str>)
    ensures
        final(seeds)@ == pinned_after(
            old(seeds)@,
            match setting {
                Some(t) => Some(t@),
                None => None,
            },
        ),
{
    match setting {
        Some(text) => {
            let t = trim(text);
            match parse_seed(t) {
                Some(n) => set_seed_override(seeds, n),
                None => {},
            }
        },
        None => {},
    }
}

/// A setting that names a number pins every later seed to it, made odd, whatever clock
/// reading the seed is drawn with.
pub proof fn lemma_setting_pins_every_seed(before: Option<u64>, setting: Option<Seq<char>>, raw: u64)
    requires
        setting_seed(setting) is Some,
    ensures
        seed_of(pinned_after(before, setting), raw) == setting_seed(setting)->0 | 1,
{
}

/// The preferences key a game's state `key` is saved under.
pub fn pref_key(key: &str) -> (k: String)
    ensures
        k@ == "save."@ + key@,
{
    let mut k = String::from_str("save.");
    proof {
        reveal_strlit("save.");
    }
    k.append(key);
    k
}

/// Hooks keyed by the game they belong to, at most one per key.
pub struct Hooks<H> {
    entries: Vec<(String, H)>,
}

impl<H> Hooks<H> {
    /// No key twice.
    #[verifier::type_invariant]
    spec fn one_per_key(self) -> bool {
        keys_distinct(self.entries@)
    }
}

impl<H> View for Hooks<H> {
    type V = Seq<(String, H)>;

    /// The entries, oldest first.
    closed spec fn view(&self) -> Seq<(String, H)> {
        self.entries@
    }
}

/// No key twice.
pub open spec fn keys_distinct<H>(s: Seq<(String, H)>) -> bool {
    forall|a: int, b: int| 0 <= a < s.len() && 0 <= b < s.len() && a != b ==> s[a].0@ != s[b].0@
}

/// The entries whose key is not `key`, in order.
pub open spec fn without<H>(s: Seq<(String, H)>, key: Seq<char>) -> Seq<(String, H)>
    decreases s.len(),
{
    if s.len() == 0 {
        seq![]
    } else if s.last().0@ == key {
        without(s.drop_last(), key)
    } else {
        without(s.drop_last(), key).push(s.last())
    }
}

/// The hooks, in order.
pub open spec fn hooks_of<H>(s: Seq<(String, H)>) -> Seq<H> {
    s.map_values(|e: (String, H)| e.1)
}

proof fn lemma_without_absent<H>(s: Seq<(String, H)>, key: Seq<char>)
    requires
        forall|j: int| 0 <= j < s.len() ==> s[j].0@ != key,
    ensures
        without(s, key) == s,
    decreases s.len(),
{
    if s.len() > 0 {
        lemma_without_absent(s.drop_last(), key);
        assert(s.drop_last().push(s.last()) =~= s);
    }
}

proof fn lemma_without_at<H>(s: Seq<(String, H)>, key: Seq<char>, i: int)
    requires
        keys_distinct(s),
        0 <= i < s.len(),
        s[i].0@ == key,
    ensures
        without(s, key) == s.remove(i),
    decreases s.len(),
{
    if i == s.len() - 1 {
        assert forall|j: int| 0 <= j < s.drop_last().len() implies s.drop_last()[j].0@ != key by {
            assert(s[j].0@ != s[i].0@);
        }
        lemma_without_absent(s.drop_last(), key);
        assert(s.remove(i) =~= s.drop_last());
    } else {
        let d = s.drop_last();
        assert(keys_distinct(d));
        lemma_without_at(d, key, i);
        assert(s.last().0@ != key) by {
            assert(s[s.len() - 1].0@ != s[i].0@);
        }
        assert(d.remove(i).push(s.last()) =~= s.remove(i));
    }
}

proof fn lemma_without_keys<H>(s: Seq<(String, H)>, key: Seq<char>)
    requires
        keys_distinct(s),
    ensures
        keys_distinct(without(s, key)),
        forall|j: int| 0 <= j < without(s, key).len() ==> without(s, key)[j].0@ != key,
        forall|j: int| #![trigger without(s, key)[j]]
            0 <= j < without(s, key).len() ==> exists|k: int| 0 <= k < s.len() && #[trigger] s[k] == without(s, key)[j],
    decreases s.len(),
{
    if s.len() > 0 {
        let d = s.drop_last();
        assert(keys_distinct(d));
        lemma_without_keys(d, key);
        let w = without(d, key);
        if s.last().0@ != key {
            let w2 = w.push(s.last());
            assert forall|j: int| #![trigger w2[j]] 0 <= j < w2.len() implies exists|k: int| 0 <= k < s.len() && #[trigger] s[k] == w2[j] by {
                if j < w.len() {
                    let k = choose|k: int| 0 <= k < d.len() && d[k] == w[j];
                    assert(s[k] == w2[j]);
                } else {
                    assert(s[s.len() - 1] == w2[j]);
                }
            }
            assert forall|a: int, b: int| 0 <= a < w2.len() && 0 <= b < w2.len() && a != b implies w2[a].0@
                != w2[b].0@ by {
                if a == w.len() && b < w.len() {
                    let k = choose|k: int| 0 <= k < d.len() && d[k] == w[b];
                    assert(s[k] == w2[b]);
                    assert(s[s.len() - 1].0@ != s[k].0@);
                } else if b == w.len() && a < w.len() {
                    let k = choose|k: int| 0 <= k < d.len() && d[k] == w[a];
                    assert(s[k] == w2[a]);
                    assert(s[s.len() - 1].0@ != s[k].0@);
                }
            }
        }
    }
}

/// The hook kept under `key`, if any: the last entry with that key.
pub open spec fn hook_for<H>(s: Seq<(String, H)>, key: Seq<char>) -> Option<H>
    decreases s.len(),
{
    if s.len() == 0 {
        None
    } else if s.last().0@ == key {
        Some(s.last().1)
    } else {
        hook_for(s.drop_last(), key)
    }
}

proof fn lemma_hook_for_absent<H>(s: Seq<(String, H)>, key: Seq<char>)
    requires
        forall|j: int| 0 <= j < s.len() ==> s[j].0@ != key,
    ensures
        hook_for(s, key) is None,
    decreases s.len(),
{
    if s.len() > 0 {
        lemma_hook_for_absent(s.drop_last(), key);
    }
}

proof fn lemma_hook_for_at<H>(s: Seq<(String, H)>, key: Seq<char>, i: int)
    requires
        keys_distinct(s),
        0 <= i < s.len(),
        s[i].0@ == key,
    ensures
        hook_for(s, key) == Some(s[i].1),
    decreases s.len(),
{
    if i < s.len() - 1 {
        let d = s.drop_last();
        assert(keys_distinct(d));
        assert(s.last().0@ != key) by {
            assert(s[s.len() - 1].0@ != s[i].0@);
        }
        lemma_hook_for_at(d, key, i);
    }
}

impl<H> Hooks<H> {
    pub fn new() -> (h: Hooks<H>)
        ensures
            h@.len() == 0,
    {
        Hooks { entries: Vec::new() }
    }

    /// Where `key`'s hook sits, if it has one.
    fn find(&self, key: &str) -> (at: Option<usize>)
        ensures
            at matches Some(i) ==> i < self.entries@.len() && self.entries@[i as int].0@ == key@,
            at is None ==> forall|j: int| 0 <= j < self.entries@.len() ==> self.entries@[j].0@ != key@,
    {
        let wanted: String = key.to_owned();
        let mut i: usize = 0;
        while i < self.entries.len()
            invariant
                0 <= i <= self.entries@.len(),
                wanted@ == key@,
                forall|j: int| 0 <= j < i ==> self.entries@[j].0@ != key@,
            decreases self.entries.len() - i,
        {
            if self.entries[i].0 == wanted {
                return Some(i);
            }
            i += 1;
        }
        None
    }

    /// Keep `hook` under `key`, replacing the one there.
    pub fn insert(&mut self, key: &str, hook: H)
        ensures
            registered(old(self)@, key@, hook, final(self)@),
    {
        self.remove(key);
        let k: String = key.to_owned();
        let ghost before = self.entries@;
        proof {
            use_type_invariant(&*self);
            let after = before.push((k, hook));
            assert forall|a: int, b: int|
                0 <= a < after.len() && 0 <= b < after.len() && a != b implies after[a].0@ != after[b].0@ by {
                if a == before.len() {
                    assert(before[b].0@ != key@);
                } else if b == before.len() {
                    assert(before[a].0@ != key@);
                } else {
                    assert(after[a] == before[a] && after[b] == before[b]);
                }
            }
            assert(after.drop_last() =~= before);
        }
        let mut v: Vec<(String, H)> = Vec::new();
        std::mem::swap(&mut v, &mut self.entries);
        v.push((k, hook));
        self.entries = v;
    }

    /// Take `key`'s hook out, if it has one.
    pub fn take(&mut self, key: &str) -> (hook: Option<H>)
        ensures
            disposed(old(self)@, key@, hook, final(self)@),
    {
        proof {
            use_type_invariant(&*self);
            lemma_without_keys(self.entries@, key@);
        }
        match self.find(key) {
            Some(i) => {
                proof {
                    lemma_without_at(self.entries@, key@, i as int);
                    lemma_hook_for_at(self.entries@, key@, i as int);
                }
                let mut v: Vec<(String, H)> = Vec::new();
                std::mem::swap(&mut v, &mut self.entries);
                let e = v.remove(i);
                self.entries = v;
                Some(e.1)
            },
            None => {
                proof {
                    lemma_without_absent(self.entries@, key@);
                    lemma_hook_for_absent(self.entries@, key@);
                }
                None
            },
        }
    }

    /// Drop `key`'s hook, if it has one.
    pub fn remove(&mut self, key: &str)
        ensures
            final(self)@ == without(old(self)@, key@),
            forall|j: int| 0 <= j < final(self)@.len() ==> final(self)@[j].0@ != key@,
    {
        proof {
            use_type_invariant(&*self);
            lemma_without_keys(self.entries@, key@);
        }
        match self.find(key) {
            Some(i) => {
                proof {
                    lemma_without_at(self.entries@, key@, i as int);
                }
                let mut v: Vec<(String, H)> = Vec::new();
                std::mem::swap(&mut v, &mut self.entries);
                v.remove(i);
                self.entries = v;
            },
            None => {
                proof {
                    lemma_without_absent(self.entries@, key@);
                }
            },
        }
    }
}

/// The shell's registries: the save hooks of the open games, their background hooks, what the
/// close button does, and whether the platform's lifecycle phases are hooked yet.
pub struct Shell<H> {
    pub live: Hooks<H>,
    pub background: Hooks<H>,
    pub close_hook: Option<H>,
    pub lifecycle_hooked: bool,
}

impl<H> Shell<H> {
    pub fn new() -> (s: Shell<H>)
        ensures
            s.live@.len() == 0,
            s.background@.len() == 0,
            s.close_hook is None,
            !s.lifecycle_hooked,
    {
        Shell { live: Hooks::new(), background: Hooks::new(), close_hook: None, lifecycle_hooked: false }
    }

    /// The one process-wide lifecycle registration: true the first time only, when the page
    /// hooks the backgrounding phases to [`save_all`].
    pub fn hook_lifecycle(&mut self) -> (first: bool)
        ensures
            first == !old(self).lifecycle_hooked,
            final(self).lifecycle_hooked,
            final(self).live == old(self).live,
            final(self).background == old(self).background,
            final(self).close_hook == old(self).close_hook,
    {
        let first = !self.lifecycle_hooked;
        self.lifecycle_hooked = true;
        first
    }
}

/// Run `hook` whenever the app leaves the foreground while `key`'s game is open, before the
/// saves. True when the lifecycle phases still need hooking.
pub fn on_background<H>(shell: &mut Shell<H>, key: &str, hook: H) -> (first: bool)
    ensures
        first == !old(shell).lifecycle_hooked,
        final(shell).lifecycle_hooked,
        registered(old(shell).background@, key@, hook, final(shell).background@),
        final(shell).live == old(shell).live,
        final(shell).close_hook == old(shell).close_hook,
{
    shell.background.insert(key, hook);
    shell.hook_lifecycle()
}

/// Keep `saver` as `key`'s live state provider, saved when the game closes and whenever the app
/// is backgrounded. True when the lifecycle phases still need hooking.
pub fn autosave<H>(shell: &mut Shell<H>, key: &str, saver: H) -> (first: bool)
    ensures
        first == !old(shell).lifecycle_hooked,
        final(shell).lifecycle_hooked,
        registered(old(shell).live@, key@, saver, final(shell).live@),
        keys_distinct(final(shell).live@),
        final(shell).background == old(shell).background,
        final(shell).close_hook == old(shell).close_hook,
{
    shell.live.insert(key, saver);
    let first = shell.hook_lifecycle();
    proof {
        use_type_invariant(&shell.live);
    }
    first
}

/// The game's page closed: its saver leaves the registry and is handed back, to save the
/// game once more; no later backgrounding runs it.
pub fn dispose<H>(shell: &mut Shell<H>, key: &str) -> (saver: Option<H>)
    ensures
        disposed(old(shell).live@, key@, saver, final(shell).live@),
        final(shell).background == old(shell).background,
        final(shell).close_hook == old(shell).close_hook,
        final(shell).lifecycle_hooked == old(shell).lifecycle_hooked,
{
    shell.live.take(key)
}

/// The game's page closed: its background hook leaves the registry.
pub fn forget_background<H>(shell: &mut Shell<H>, key: &str)
    ensures
        final(shell).background@ == without(old(shell).background@, key@),
        final(shell).live == old(shell).live,
        final(shell).close_hook == old(shell).close_hook,
        final(shell).lifecycle_hooked == old(shell).lifecycle_hooked,
{
    shell.background.remove(key);
}

/// Without its key, a list no longer holds that key's hook.
pub proof fn lemma_without_drops_the_hook<H>(s: Seq<(String, H)>, key: Seq<char>)
    requires
        keys_distinct(s),
    ensures
        hook_for(without(s, key), key) is None,
{
    lemma_without_keys(s, key);
    lemma_hook_for_absent(without(s, key), key);
}

/// `new` is `old` with `hook` registered under `key`: the key's earlier hook dropped and the
/// new one last.
pub open spec fn registered<H>(old: Seq<(String, H)>, key: Seq<char>, hook: H, new: Seq<(String, H)>) -> bool {
    &&& new.len() == without(old, key).len() + 1
    &&& new.drop_last() =~= without(old, key)
    &&& new.last().0@ == key
    &&& new.last().1 == hook
}

/// `new` is `old` with `key`'s hook taken out as `out`.
pub open spec fn disposed<H>(old: Seq<(String, H)>, key: Seq<char>, out: Option<H>, new: Seq<(String, H)>) -> bool {
    &&& out == hook_for(old, key)
    &&& new == without(old, key)
}

/// A registered saver is the one the page's close hands back: after a saver is registered
/// under `key`, disposing `key` returns that saver, and the registry then holds no hook for
/// `key`, so no later backgrounding saves it.
pub proof fn lemma_autosave_then_dispose<H>(
    before: Seq<(String, H)>,
    key: Seq<char>,
    saver: H,
    after: Seq<(String, H)>,
    out: Option<H>,
    closed: Seq<(String, H)>,
)
    requires
        keys_distinct(after),
        registered(before, key, saver, after),
        disposed(after, key, out, closed),
    ensures
        out == Some(saver),
        hook_for(closed, key) is None,
{
    lemma_without_drops_the_hook(after, key);
}

/// Register what leaving the open game does (one at a time: the shell shows one game).
pub fn on_close<H>(shell: &mut Shell<H>, hook: H)
    ensures
        final(shell).close_hook == Some(hook),
        final(shell).live == old(shell).live,
        final(shell).background == old(shell).background,
        final(shell).lifecycle_hooked == old(shell).lifecycle_hooked,
{
    shell.close_hook = Some(hook);
}

/// The cover closed: nothing to leave any more.
pub fn clear_close<H>(shell: &mut Shell<H>)
    ensures
        final(shell).close_hook is None,
        final(shell).live == old(shell).live,
        final(shell).background == old(shell).background,
        final(shell).lifecycle_hooked == old(shell).lifecycle_hooked,
{
    shell.close_hook = None;
}

/// Leave the open game: the hook the shell registered, if any (a game built outside the shell
/// has none, and closing is inert).
pub fn close<H>(shell: &Shell<H>) -> (hook: Option<&H>)
    ensures
        match shell.close_hook {
            Some(h) => hook == Some(&h),
            None => hook is None,
        },
{
    match &shell.close_hook {
        Some(h) => Some(h),
        None => None,
    }
}

/// Every hook to run when the app is backgrounded, in order: the background hooks first (a
/// timed game stops its clock), then the saves, so a stopped clock is saved stopped.
pub fn save_all<H>(shell: &Shell<H>) -> (run: Vec<&H>)
    ensures
        run@.len() == shell.background@.len() + shell.live@.len(),
        forall|j: int|
            0 <= j < shell.background@.len() ==> *run@[j] == shell.background@[j].1,
        forall|j: int|
            0 <= j < shell.live@.len() ==> *run@[shell.background@.len() + j]
                == shell.live@[j].1,
{
    let mut run: Vec<&H> = Vec::new();
    let mut i: usize = 0;
    while i < shell.background.entries.len()
        invariant
            0 <= i <= shell.background@.len(),
            run@.len() == i,
            forall|j: int| 0 <= j < i ==> *run@[j] == shell.background@[j].1,
        decreases shell.background.entries.len() - i,
    {
        run.push(&shell.background.entries[i].1);
        i += 1;
    }
    let n: usize = run.len();
    let mut i: usize = 0;
    while i < shell.live.entries.len()
        invariant
            0 <= i <= shell.live@.len(),
            n == shell.background@.len(),
            run@.len() == n + i,
            forall|j: int| 0 <= j < n ==> *run@[j] == shell.background@[j].1,
            forall|j: int| 0 <= j < i ==> *run@[n + j] == shell.live@[j].1,
        decreases shell.live.entries.len() - i,
    {
        run.push(&shell.live.entries[i].1);
        i += 1;
    }
    run
}

} // verus!
