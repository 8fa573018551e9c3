//! Finding FFmpeg on a machine.
//!
//! A launch from an installer and a launch from a shell do not see the same environment, so the
//! search runs the application's own copy, the inherited `PATH`, the `Path` values of the
//! registry, and then the usual install folders. Only a candidate that actually runs is accepted.

use vstd::prelude::*;
use vstd::string::*;

use crate::text;
use crate::text::{back, chars_between, chars_of, copy, find_char, lowercase, split, split_words, text_of, trim_chars, CharSet};

verus! {

broadcast use crate::text::texts_push;

/// The identifier that names the application's own data folder.
pub const APP_IDENTIFIER: &'static str = "com.mkiera.flipperclipper";

// --- Lists of folders ---

/// One entry of a list of folders: quotes and the white space around it are not part of it.
pub open spec fn entry(part: Seq<char>) -> Seq<char> {
    text::trim_both(text::trimmed(part), CharSet::One('"'))
}

/// The entries of the first `k` parts that are not empty.
pub open spec fn entries(parts: Seq<Seq<char>>, k: int) -> Seq<Seq<char>>
    decreases k,
{
    if k <= 0 {
        Seq::empty()
    } else {
        let before = entries(parts, k - 1);
        if entry(parts[k - 1]).len() == 0 {
            before
        } else {
            before.push(entry(parts[k - 1]))
        }
    }
}

/// The folders of a `Path` value.
pub open spec fn path_entries(value: Seq<char>) -> Seq<Seq<char>> {
    let parts = text::pieces(value, ';');
    entries(parts, parts.len() as int)
}

/// The folders of a `Path` value, the way Windows writes it.
pub fn split_path_list(value: &str) -> (r: Vec<String>)
    ensures
        text::texts(r@) == path_entries(value@),
{
    let parts = split(&chars_of(value), ';');
    let ghost spelled = text::spelled(parts@);
    let mut out: Vec<String> = Vec::new();
    let mut i: usize = 0;
    proof {
        assert(text::texts(out@) =~= entries(spelled, 0));
        assert(spelled.len() == parts.len());
    }
    while i < parts.len()
        invariant
            i <= parts.len(),
            spelled == text::spelled(parts@),
            text::texts(out@) == entries(spelled, i as int),
        decreases parts.len() - i,
    {
        let part = chars_between(&parts[i], 0, parts[i].len());
        proof {
            assert(part@ =~= spelled[i as int]);
        }
        let kept = trim_chars(trim_chars(part, &CharSet::White), &CharSet::One('"'));
        if kept.len() > 0 {
            out.push(text_of(&kept));
        }
        i += 1;
    }
    out
}

/// A list of folders splits into entries none of which is empty.
pub proof fn law_path_entries_are_not_empty(value: Seq<char>)
    ensures
        forall|i: int| 0 <= i < path_entries(value).len() ==> (#[trigger] path_entries(value)[i]).len() > 0,
{
    let parts = text::pieces(value, ';');
    lemma_entries(parts, parts.len() as int);
}

proof fn lemma_entries(parts: Seq<Seq<char>>, k: int)
    ensures
        forall|i: int| 0 <= i < entries(parts, k).len() ==> (#[trigger] entries(parts, k)[i]).len() > 0,
    decreases k,
{
    if k > 0 {
        lemma_entries(parts, k - 1);
        let before = entries(parts, k - 1);
        assert forall|i: int| 0 <= i < entries(parts, k).len() implies (#[trigger] entries(
            parts,
            k,
        )[i]).len() > 0 by {
            if i < before.len() {
                assert(entries(parts, k)[i] == before[i]);
            }
        }
    }
}

/// The first two percent signs of a text, where it has two.
pub open spec fn reference(s: Seq<char>) -> Option<(int, int)> {
    let n = text::next_at(s, '%', 0);
    let m = text::next_at(s, '%', n + 1);
    if 0 <= n < m < s.len() {
        Some((n, m))
    } else {
        None
    }
}

/// What stands for a reference to `name`: its value, where it has one, or the reference itself.
pub open spec fn replaced(name: Seq<char>, value: Option<Seq<char>>) -> Seq<char> {
    if name.len() > 0 && value is Some {
        value->0
    } else {
        seq!['%'] + name + seq!['%']
    }
}

/// A text with every `%NAME%` that `env` knows replaced by its value, and the rest as it stands.
pub open spec fn expanded(s: Seq<char>, env: spec_fn(Seq<char>) -> Option<Seq<char>>) -> Seq<char>
    decreases s.len(),
{
    match reference(s) {
        Some((n, m)) => {
            let name = s.subrange(n + 1, m);
            s.take(n) + replaced(name, env(name)) + expanded(s.skip(m + 1), env)
        },
        None => s,
    }
}

/// The names that a text refers to, in order.
pub open spec fn names(s: Seq<char>) -> Seq<Seq<char>>
    decreases s.len(),
{
    match reference(s) {
        Some((n, m)) => seq![s.subrange(n + 1, m)] + names(s.skip(m + 1)),
        None => Seq::empty(),
    }
}

/// A text with each reference replaced by the answer to it, the answers given in the order of the
/// references, and the rest as it stands.
pub open spec fn filled(s: Seq<char>, answers: Seq<Option<Seq<char>>>) -> Seq<char>
    decreases s.len(),
{
    match reference(s) {
        Some((n, m)) => s.take(n) + replaced(s.subrange(n + 1, m), answers[0]) + filled(
            s.skip(m + 1),
            answers.drop_first(),
        ),
        None => s,
    }
}

/// The texts of some answers.
pub open spec fn spoken(answers: Seq<Option<String>>) -> Seq<Option<Seq<char>>> {
    Seq::new(answers.len(), |i: int| text::maybe_text(answers[i]))
}

/// Whether a lookup can give `answer` when it is asked for `name`.
pub open spec fn gives<F: Fn(&str) -> Option<String>>(
    lookup: F,
    name: Seq<char>,
    answer: Option<String>,
) -> bool {
    exists|asked: &str| asked@ == name && #[trigger] lookup.ensures((asked,), answer)
}

/// Whether a lookup can give each of `answers` when it is asked for the name in the same place.
pub open spec fn gives_each<F: Fn(&str) -> Option<String>>(
    lookup: F,
    asked: Seq<Seq<char>>,
    answers: Seq<Option<String>>,
) -> bool {
    &&& answers.len() == asked.len()
    &&& forall|i: int| 0 <= i < asked.len() ==> gives(lookup, asked[i], #[trigger] answers[i])
}

/// Every answer of a lookup is the one `env` gives.
pub open spec fn answers_as<F: Fn(&str) -> Option<String>>(
    lookup: F,
    env: spec_fn(Seq<char>) -> Option<Seq<char>>,
) -> bool {
    forall|name: &str, value: Option<String>|
        #[trigger] lookup.ensures((name,), value) ==> text::maybe_text(value) == env(name@)
}

/// Where every answer is the one that `env` has for the name, filling a text in is expanding it.
pub proof fn law_fixed_answers_expand(
    s: Seq<char>,
    env: spec_fn(Seq<char>) -> Option<Seq<char>>,
    answers: Seq<Option<Seq<char>>>,
)
    requires
        answers.len() == names(s).len(),
        forall|i: int| 0 <= i < answers.len() ==> #[trigger] answers[i] == env(names(s)[i]),
    ensures
        filled(s, answers) == expanded(s, env),
    decreases s.len(),
{
    if let Some((n, m)) = reference(s) {
        let rest = s.skip(m + 1);
        let tail = answers.drop_first();
        assert(names(s)[0] == s.subrange(n + 1, m));
        assert(answers[0] == env(names(s)[0]));
        assert forall|i: int| 0 <= i < tail.len() implies #[trigger] tail[i] == env(names(rest)[i]) by {
            assert(names(s)[i + 1] == names(rest)[i]);
            assert(tail[i] == answers[i + 1]);
        }
        law_fixed_answers_expand(rest, env, tail);
    }
}

fn find_reference(chars: &Vec<char>) -> (r: Option<(usize, usize)>)
    ensures
        r is Some <==> reference(chars@) is Some,
        r matches Some((n, m)) ==> reference(chars@) == Some((n as int, m as int)) && n < m < chars.len(),
{
    let n = find_char(chars, '%', 0);
    if n == chars.len() {
        return None;
    }
    let m = find_char(chars, '%', n + 1);
    if m == chars.len() {
        return None;
    }
    Some((n, m))
}

fn replacement(name: &str, value: Option<String>) -> (r: String)
    ensures
        r@ == replaced(name@, text::maybe_text(value)),
{
    if name.unicode_len() > 0 {
        if let Some(v) = value {
            return v;
        }
    }
    let mut out = String::new();
    out.push('%');
    out.append(name);
    out.push('%');
    proof {
        assert(out@ =~= seq!['%'] + name@ + seq!['%']);
    }
    out
}

/// Expands `%NAME%` references. The registry holds the user's Path in a form that can contain
/// them.
pub fn expand_env_vars<F: Fn(&str) -> Option<String>>(value: &str, lookup: F) -> (r: String)
    requires
        forall|name: &str| lookup.requires((name,)),
    ensures
        exists|answers: Seq<Option<String>>| #[trigger]
            gives_each(lookup, names(value@), answers) && r@ == filled(value@, spoken(answers)),
        forall|env: spec_fn(Seq<char>) -> Option<Seq<char>>|
            answers_as(lookup, env) ==> r@ == #[trigger] expanded(value@, env),
        reference(value@) is None ==> r@ == value@,
{
    let mut rest = chars_of(value);
    let mut out = String::new();
    let ghost mut asked: Seq<Seq<char>> = Seq::empty();
    let ghost mut answers: Seq<Option<String>> = Seq::empty();
    proof {
        assert(names(value@) =~= asked + names(rest@));
        assert forall|more: Seq<Option<Seq<char>>>|
            out@ + #[trigger] filled(rest@, more) == filled(value@, spoken(answers) + more) by {
            assert(spoken(answers) + more =~= more);
            assert(out@ + filled(rest@, more) =~= filled(rest@, more));
        }
    }
    loop
        invariant
            forall|name: &str| lookup.requires((name,)),
            names(value@) == asked + names(rest@),
            gives_each(lookup, asked, answers),
            forall|more: Seq<Option<Seq<char>>>|
                out@ + #[trigger] filled(rest@, more) == filled(value@, spoken(answers) + more),
        ensures
            reference(rest@) is None,
        decreases rest.len(),
    {
        let (n, m) = match find_reference(&rest) {
            Some(found) => found,
            None => {
                break;
            },
        };
        let name = text::text_between(&rest, n + 1, m);
        let found = lookup(name.as_str());
        let ghost answer = found;
        let ghost before = out@;
        let put = replacement(name.as_str(), found);
        out.append(text::text_between(&rest, 0, n).as_str());
        out.append(put.as_str());
        let next = chars_between(&rest, m + 1, rest.len());
        proof {
            let s = rest@;
            let told = answers.push(answer);
            assert(s.subrange(0, n as int) =~= s.take(n as int));
            assert(next@ =~= s.skip(m + 1));
            assert(asked + names(s) =~= asked.push(name@) + names(next@));
            assert(gives(lookup, name@, answer));
            assert forall|i: int| 0 <= i < told.len() implies gives(
                lookup,
                asked.push(name@)[i],
                #[trigger] told[i],
            ) by {
                if i < answers.len() {
                    assert(told[i] == answers[i]);
                }
            }
            assert forall|more: Seq<Option<Seq<char>>>|
                out@ + #[trigger] filled(next@, more) == filled(value@, spoken(told) + more) by {
                let all = seq![text::maybe_text(answer)] + more;
                assert(all.drop_first() =~= more);
                assert(before + filled(s, all) == filled(value@, spoken(answers) + all));
                assert(spoken(answers) + all =~= spoken(told) + more);
                assert(out@ + filled(next@, more) =~= before + filled(s, all));
            }
            asked = asked.push(name@);
            answers = told;
        }
        rest = next;
    }
    let ghost before = out@;
    out.append(text_of(&rest).as_str());
    proof {
        let none: Seq<Option<Seq<char>>> = Seq::empty();
        assert(before + filled(rest@, none) == filled(value@, spoken(answers) + none));
        assert(spoken(answers) + none =~= spoken(answers));
        assert(asked + names(rest@) =~= asked);
        assert forall|env: spec_fn(Seq<char>) -> Option<Seq<char>>|
            answers_as(lookup, env) implies out@ == #[trigger] expanded(value@, env) by {
            let texts = spoken(answers);
            assert forall|i: int| 0 <= i < texts.len() implies #[trigger] texts[i] == env(
                names(value@)[i],
            ) by {
                assert(gives(lookup, asked[i], answers[i]));
            }
            law_fixed_answers_expand(value@, env, texts);
        }
    }
    out
}

/// A text without a percent sign stays as it is.
pub proof fn law_no_reference_no_change(s: Seq<char>, env: spec_fn(Seq<char>) -> Option<Seq<char>>)
    requires
        !s.contains('%'),
    ensures
        expanded(s, env) == s,
{
    text::lemma_next_at(s, '%', 0);
    let n = text::next_at(s, '%', 0);
    if n < s.len() {
        assert(s[n] == '%');
    }
}

// --- One spelling of each folder ---

/// What two spellings of one folder have in common.
pub open spec fn folder_key(dir: Seq<char>) -> Seq<char> {
    text::lowercased(text::trim_back(dir, CharSet::Two('\\', '/')))
}

/// The first spelling of each folder among the first `k`, in order.
pub open spec fn first_spellings(dirs: Seq<Seq<char>>, k: int) -> Seq<Seq<char>>
    decreases k,
{
    if k <= 0 {
        Seq::empty()
    } else {
        let before = first_spellings(dirs, k - 1);
        if is_new(before, dirs[k - 1]) {
            before.push(dirs[k - 1])
        } else {
            before
        }
    }
}

/// A folder that is none of those kept, and not the root of nothing.
pub open spec fn is_new(kept: Seq<Seq<char>>, dir: Seq<char>) -> bool {
    &&& folder_key(dir).len() > 0
    &&& forall|i: int| 0 <= i < kept.len() ==> folder_key(#[trigger] kept[i]) != folder_key(dir)
}

/// The folders that have been looked in, each by its first spelling.
pub struct DirFilter {
    kept: Vec<String>,
}

impl View for DirFilter {
    type V = Seq<Seq<char>>;

    closed spec fn view(&self) -> Seq<Seq<char>> {
        text::texts(self.kept@)
    }
}

fn key_of(dir: &str) -> (r: String)
    ensures
        r@ == folder_key(dir@),
{
    lowercase(text_of(&back(chars_of(dir), &CharSet::Two('\\', '/'))).as_str())
}

impl DirFilter {
    pub fn new() -> (r: DirFilter)
        ensures
            r@ == Seq::<Seq<char>>::empty(),
    {
        let r = DirFilter { kept: Vec::new() };
        proof {
            assert(r@ =~= Seq::<Seq<char>>::empty());
        }
        r
    }

    /// Whether a folder has not been looked in yet; it then counts as looked in.
    pub fn accept(&mut self, dir: &str) -> (r: bool)
        ensures
            r == is_new(old(self)@, dir@),
            final(self)@ == (if r {
                old(self)@.push(dir@)
            } else {
                old(self)@
            }),
    {
        let key = key_of(dir);
        if key.as_str().unicode_len() == 0 {
            return false;
        }
        let mut i: usize = 0;
        while i < self.kept.len()
            invariant
                i <= self.kept.len(),
                *self == *old(self),
                key@ == folder_key(dir@),
                forall|j: int| 0 <= j < i ==> folder_key(#[trigger] self@[j]) != folder_key(dir@),
            decreases self.kept.len() - i,
        {
            proof {
                assert(self@[i as int] == self.kept@[i as int]@);
            }
            if *key_of(self.kept[i].as_str()).as_str() == *key.as_str() {
                return false;
            }
            i += 1;
        }
        self.kept.push(dir.to_string());
        true
    }
}

/// Keeps the first spelling of each folder, so that the order of a search survives.
pub fn dedupe_dirs(dirs: Vec<String>) -> (r: Vec<String>)
    ensures
        text::texts(r@) == first_spellings(text::texts(dirs@), dirs.len() as int),
{
    let mut filter = DirFilter::new();
    let mut i: usize = 0;
    while i < dirs.len()
        invariant
            i <= dirs.len(),
            filter@ == first_spellings(text::texts(dirs@), i as int),
        decreases dirs.len() - i,
    {
        proof {
            assert(text::texts(dirs@)[i as int] == dirs@[i as int]@);
        }
        let _ = filter.accept(dirs[i].as_str());
        i += 1;
    }
    filter.kept
}

/// Of the folders that are kept no two are one and the same; every folder that can be looked in
/// is among them in some spelling; and those kept stand in the order they came.
pub proof fn law_one_spelling_of_each_folder(dirs: Seq<Seq<char>>, k: int)
    requires
        0 <= k <= dirs.len(),
    ensures
        ({
            let kept = first_spellings(dirs, k);
            &&& forall|i: int, j: int|
                0 <= i < j < kept.len() ==> folder_key(#[trigger] kept[i]) != folder_key(
                    #[trigger] kept[j],
                )
            &&& forall|j: int|
                0 <= j < k && folder_key(#[trigger] dirs[j]).len() > 0 ==> known_folder(kept, dirs[j])
            &&& forall|i: int| 0 <= i < kept.len() ==> folder_key(#[trigger] kept[i]).len() > 0
            &&& k > 0 ==> kept.len() >= first_spellings(dirs, k - 1).len() && kept.take(
                first_spellings(dirs, k - 1).len() as int,
            ) == first_spellings(dirs, k - 1)
        }),
    decreases k,
{
    if k > 0 {
        law_one_spelling_of_each_folder(dirs, k - 1);
        let before = first_spellings(dirs, k - 1);
        let kept = first_spellings(dirs, k);
        assert(kept.take(before.len() as int) =~= before);
        assert forall|j: int| 0 <= j < k && folder_key(#[trigger] dirs[j]).len() > 0 implies known_folder(
            kept,
            dirs[j],
        ) by {
            if j < k - 1 {
                assert(known_folder(before, dirs[j]));
                let i = choose|i: int|
                    0 <= i < before.len() && folder_key(#[trigger] before[i]) == folder_key(dirs[j]);
                assert(folder_key(kept[i]) == folder_key(dirs[j]));
            } else if is_new(before, dirs[j]) {
                assert(kept[before.len() as int] == dirs[j]);
            } else {
                let i = choose|i: int|
                    0 <= i < before.len() && folder_key(#[trigger] before[i]) == folder_key(dirs[j]);
                assert(folder_key(kept[i]) == folder_key(dirs[j]));
            }
        }
    }
}

/// A folder that is among those kept, in some spelling.
pub open spec fn known_folder(kept: Seq<Seq<char>>, dir: Seq<char>) -> bool {
    exists|i: int| 0 <= i < kept.len() && folder_key(#[trigger] kept[i]) == folder_key(dir)
}

// --- Where a search looks, and in what order ---

/// Where folders to look in come from.
#[derive(Debug, Clone, Copy, PartialEq, Eq, Structural)]
pub enum Tier {
    /// The application's own copy: the one program it has run itself.
    Managed,
    /// The search path this process was given.
    Inherited,
    /// The search path the system keeps for the user, which may be newer.
    User,
    /// The search path the system keeps for the machine.
    Machine,
    /// Where FFmpeg is usually installed.
    Known,
}

/// The tier that is asked next.
pub open spec fn tier_after(at: Tier) -> Option<Tier> {
    match at {
        Tier::Managed => Some(Tier::Inherited),
        Tier::Inherited => Some(Tier::User),
        Tier::User => Some(Tier::Machine),
        Tier::Machine => Some(Tier::Known),
        Tier::Known => None,
    }
}

/// The tier that is asked next.
pub fn next_tier(at: Tier) -> (r: Option<Tier>)
    ensures
        r == tier_after(at),
{
    match at {
        Tier::Managed => Some(Tier::Inherited),
        Tier::Inherited => Some(Tier::User),
        Tier::User => Some(Tier::Machine),
        Tier::Machine => Some(Tier::Known),
        Tier::Known => None,
    }
}

/// How many tiers are left from one on.
pub open spec fn tiers_left(at: Option<Tier>) -> nat {
    match at {
        None => 0,
        Some(Tier::Known) => 1,
        Some(Tier::Machine) => 2,
        Some(Tier::User) => 3,
        Some(Tier::Inherited) => 4,
        Some(Tier::Managed) => 5,
    }
}

/// The first folder from `i` on that is none of those looked in, or the number of folders.
pub open spec fn fresh_at(seen: Seq<Seq<char>>, waiting: Seq<Seq<char>>, i: int) -> int
    decreases waiting.len() - i,
{
    if i >= waiting.len() {
        waiting.len() as int
    } else if is_new(seen, waiting[i]) {
        i
    } else {
        fresh_at(seen, waiting, i + 1)
    }
}

/// The folders of a search under way, in terms of what they spell.
pub struct QueueState {
    /// The tier to ask when nothing waits.
    pub next: Option<Tier>,
    /// The folders that wait.
    pub waiting: Seq<Seq<char>>,
    /// The folders that have been looked in.
    pub seen: Seq<Seq<char>>,
}

/// What a search does next.
pub enum QueueMove {
    Looking(Seq<char>),
    Asking(Tier),
    Ending,
}

/// What a search does next, and where that leaves it: the next folder that waits and is new, or
/// else the next tier, which is not asked before.
pub open spec fn queue_step(q: QueueState) -> (QueueState, QueueMove) {
    let at = fresh_at(q.seen, q.waiting, 0);
    if at < q.waiting.len() {
        (
            QueueState {
                next: q.next,
                waiting: q.waiting.skip(at + 1),
                seen: q.seen.push(q.waiting[at]),
            },
            QueueMove::Looking(q.waiting[at]),
        )
    } else {
        match q.next {
            Some(tier) => (
                QueueState { next: tier_after(tier), waiting: Seq::empty(), seen: q.seen },
                QueueMove::Asking(tier),
            ),
            None => (QueueState { next: None, waiting: Seq::empty(), seen: q.seen }, QueueMove::Ending),
        }
    }
}

/// The folders of a search, a tier at a time: a find in an early one spares asking the rest.
pub struct FolderQueue {
    next: Option<Tier>,
    waiting: Vec<String>,
    seen: DirFilter,
}

impl View for FolderQueue {
    type V = QueueState;

    closed spec fn view(&self) -> QueueState {
        QueueState { next: self.next, waiting: text::texts(self.waiting@), seen: self.seen@ }
    }
}

/// What a search does next.
#[derive(Debug)]
pub enum FolderStep {
    /// Look in this folder.
    Look(String),
    /// Ask this tier for its folders.
    Ask(Tier),
    /// There is nowhere left to look.
    Over,
}

impl View for FolderStep {
    type V = QueueMove;

    open spec fn view(&self) -> QueueMove {
        match self {
            FolderStep::Look(dir) => QueueMove::Looking(dir@),
            FolderStep::Ask(tier) => QueueMove::Asking(*tier),
            FolderStep::Over => QueueMove::Ending,
        }
    }
}

impl FolderQueue {
    /// A search that has yet to begin, with the application's own copy.
    pub fn new() -> (r: FolderQueue)
        ensures
            r@ == (QueueState {
                next: Some(Tier::Managed),
                waiting: Seq::empty(),
                seen: Seq::empty(),
            }),
    {
        let r = FolderQueue {
            next: Some(Tier::Managed),
            waiting: Vec::new(),
            seen: DirFilter::new(),
        };
        proof {
            assert(r@.waiting =~= Seq::empty());
        }
        r
    }

    /// What to do next.
    pub fn step(&mut self) -> (r: FolderStep)
        ensures
            (final(self)@, r@) == queue_step(old(self)@),
    {
        let ghost all = self@.waiting;
        let ghost before = self@;
        let ghost mut gone: int = 0;
        proof {
            assert(all.skip(0) =~= all);
        }
        while self.waiting.len() > 0
            invariant
                before == old(self)@,
                0 <= gone <= all.len(),
                text::texts(self.waiting@) == all.skip(gone),
                self.next == before.next,
                self.seen@ == before.seen,
                all == before.waiting,
                fresh_at(before.seen, all, 0) == fresh_at(before.seen, all, gone),
            decreases self.waiting.len(),
        {
            let ghost rest = self.waiting@;
            let dir = self.waiting.remove(0);
            proof {
                assert(text::texts(rest).len() == rest.len());
                assert(text::texts(rest)[0] == all.skip(gone)[0]);
                assert(dir@ == all[gone]);
                assert(text::texts(self.waiting@) =~= text::texts(rest).skip(1));
                assert(text::texts(self.waiting@) =~= all.skip(gone + 1));
            }
            if self.seen.accept(dir.as_str()) {
                return FolderStep::Look(dir);
            }
            proof {
                gone = gone + 1;
            }
        }
        proof {
            assert(text::texts(self.waiting@) =~= Seq::empty());
            assert(all.skip(gone).len() == 0);
        }
        match self.next {
            Some(tier) => {
                self.next = next_tier(tier);
                FolderStep::Ask(tier)
            },
            None => FolderStep::Over,
        }
    }

    /// Takes in the folders of a tier that was asked.
    pub fn answered(&mut self, dirs: Vec<String>)
        ensures
            final(self)@ == (QueueState {
                waiting: old(self)@.waiting + text::texts(dirs@),
                ..old(self)@
            }),
    {
        let mut more = dirs;
        let ghost behind = more@;
        let ghost ahead = self.waiting@;
        self.waiting.append(&mut more);
        proof {
            assert(text::texts(self.waiting@) =~= text::texts(ahead) + text::texts(behind));
        }
    }
}

/// The folders of the tiers from one on, where `folders` says what each tier holds.
pub open spec fn folders_from(folders: spec_fn(Tier) -> Seq<Seq<char>>, at: Option<Tier>) -> Seq<
    Seq<char>,
>
    decreases tiers_left(at),
{
    match at {
        None => Seq::empty(),
        Some(tier) => folders(tier) + folders_from(folders, tier_after(tier)),
    }
}

/// The folders looked in once the first `k` of a list have had their turn.
pub open spec fn looked_in(seen: Seq<Seq<char>>, dirs: Seq<Seq<char>>, k: int) -> Seq<Seq<char>>
    decreases k,
{
    if k <= 0 {
        seen
    } else {
        let before = looked_in(seen, dirs, k - 1);
        if is_new(before, dirs[k - 1]) {
            before.push(dirs[k - 1])
        } else {
            before
        }
    }
}

/// The folders that a search will have looked in, in order, when it finds nothing.
pub open spec fn whole_search(folders: spec_fn(Tier) -> Seq<Seq<char>>, q: QueueState) -> Seq<Seq<char>> {
    let ahead = q.waiting + folders_from(folders, q.next);
    looked_in(q.seen, ahead, ahead.len() as int)
}

proof fn lemma_looked_in_skip(seen: Seq<Seq<char>>, dirs: Seq<Seq<char>>, k: int)
    requires
        1 <= k <= dirs.len(),
    ensures
        looked_in(seen, dirs, k) == looked_in(
            if is_new(seen, dirs[0]) {
                seen.push(dirs[0])
            } else {
                seen
            },
            dirs.skip(1),
            k - 1,
        ),
    decreases k,
{
    let from = if is_new(seen, dirs[0]) {
        seen.push(dirs[0])
    } else {
        seen
    };
    if k == 1 {
        assert(looked_in(seen, dirs, 0) == seen);
        assert(looked_in(from, dirs.skip(1), 0) == from);
    } else {
        lemma_looked_in_skip(seen, dirs, k - 1);
        assert(dirs.skip(1)[k - 2] == dirs[k - 1]);
    }
}

/// Folders that are not new leave a search where it was, up to the first that is.
proof fn lemma_looked_in_fresh(seen: Seq<Seq<char>>, waiting: Seq<Seq<char>>, i: int, rest: Seq<Seq<char>>)
    requires
        0 <= i <= waiting.len(),
    ensures
        ({
            let at = fresh_at(seen, waiting, i);
            let ahead = waiting.skip(i) + rest;
            &&& i <= at <= waiting.len()
            &&& looked_in(seen, ahead, ahead.len() as int) == (if at < waiting.len() {
                let after = waiting.skip(at + 1) + rest;
                looked_in(seen.push(waiting[at]), after, after.len() as int)
            } else {
                looked_in(seen, rest, rest.len() as int)
            })
        }),
    decreases waiting.len() - i,
{
    let ahead = waiting.skip(i) + rest;
    if i == waiting.len() {
        assert(ahead =~= rest);
    } else {
        assert(ahead[0] == waiting[i]);
        assert(ahead.skip(1) =~= waiting.skip(i + 1) + rest);
        lemma_looked_in_skip(seen, ahead, ahead.len() as int);
        lemma_looked_in_fresh(seen, waiting, i + 1, rest);
    }
}

/// A step leaves what the whole search will look in as it was, once a tier that is asked has
/// answered; and a search that is over has looked in all of it.
pub proof fn law_a_step_keeps_the_search(folders: spec_fn(Tier) -> Seq<Seq<char>>, q: QueueState)
    ensures
        match queue_step(q) {
            (after, QueueMove::Looking(dir)) => whole_search(folders, after) == whole_search(folders, q)
                && after.seen == q.seen.push(dir),
            (after, QueueMove::Asking(tier)) => whole_search(
                folders,
                QueueState { waiting: after.waiting + folders(tier), ..after },
            ) == whole_search(folders, q) && after.seen == q.seen,
            (after, QueueMove::Ending) => whole_search(folders, q) == q.seen && after.seen == q.seen,
        },
{
    let rest = folders_from(folders, q.next);
    assert(q.waiting.skip(0) =~= q.waiting);
    lemma_looked_in_fresh(q.seen, q.waiting, 0, rest);
    if fresh_at(q.seen, q.waiting, 0) >= q.waiting.len() {
        if let Some(tier) = q.next {
            let none = Seq::<Seq<char>>::empty();
            let below = folders_from(folders, tier_after(tier));
            assert((none + folders(tier)) + below =~= rest);
        }
    }
}

/// A search that begins looks in the application's own folder first, then in those of the search
/// path it was given, of the system's own search paths and of the usual places, in this order and
/// each in its first spelling alone.
pub proof fn law_the_apps_own_folder_comes_first(folders: spec_fn(Tier) -> Seq<Seq<char>>, q: QueueState)
    requires
        q == (QueueState {
            next: Some(Tier::Managed),
            waiting: Seq::<Seq<char>>::empty(),
            seen: Seq::<Seq<char>>::empty(),
        }),
    ensures
        ({
            let all = folders(Tier::Managed) + folders(Tier::Inherited) + folders(Tier::User) + folders(
                Tier::Machine,
            ) + folders(Tier::Known);
            &&& whole_search(folders, q) == first_spellings(all, all.len() as int)
            &&& folders(Tier::Managed).len() > 0 && folder_key(folders(Tier::Managed)[0]).len() > 0 ==> {
                &&& whole_search(folders, q).len() > 0
                &&& whole_search(folders, q)[0] == folders(Tier::Managed)[0]
            }
        }),
{
    let all = folders(Tier::Managed) + folders(Tier::Inherited) + folders(Tier::User) + folders(
        Tier::Machine,
    ) + folders(Tier::Known);
    reveal_with_fuel(folders_from, 6);
    assert(q.waiting + folders_from(folders, q.next) =~= all);
    lemma_from_nothing(all, all.len() as int);
    if folders(Tier::Managed).len() > 0 && folder_key(folders(Tier::Managed)[0]).len() > 0 {
        assert(all[0] == folders(Tier::Managed)[0]);
        lemma_first_stays(all, all.len() as int);
    }
}

proof fn lemma_from_nothing(dirs: Seq<Seq<char>>, k: int)
    ensures
        looked_in(Seq::empty(), dirs, k) == first_spellings(dirs, k),
    decreases k,
{
    if k > 0 {
        lemma_from_nothing(dirs, k - 1);
    }
}

proof fn lemma_first_stays(dirs: Seq<Seq<char>>, k: int)
    requires
        1 <= k <= dirs.len(),
        folder_key(dirs[0]).len() > 0,
    ensures
        first_spellings(dirs, k).len() > 0,
        first_spellings(dirs, k)[0] == dirs[0],
    decreases k,
{
    if k > 1 {
        lemma_first_stays(dirs, k - 1);
    } else {
        assert(first_spellings(dirs, 0) =~= Seq::empty());
    }
}

// --- What the application remembers ---

/// The tools that have been found, and the folder of the application's own copy.
pub struct Tools {
    managed: Option<String>,
    found: Vec<(String, String)>,
}

/// What is remembered, in terms of what it spells.
pub struct ToolMemory {
    pub managed: Option<Seq<char>>,
    pub found: Map<Seq<char>, Seq<char>>,
}

/// The paths of the first `k` finds, a later one standing for an earlier of the same name.
spec fn finds(found: Seq<(String, String)>, k: int) -> Map<Seq<char>, Seq<char>>
    decreases k,
{
    if k <= 0 {
        Map::empty()
    } else {
        finds(found, k - 1).insert(found[k - 1].0@, found[k - 1].1@)
    }
}

impl View for Tools {
    type V = ToolMemory;

    closed spec fn view(&self) -> ToolMemory {
        ToolMemory {
            managed: text::maybe_text(self.managed),
            found: finds(self.found@, self.found@.len() as int),
        }
    }
}

proof fn lemma_finds_push(found: Seq<(String, String)>, last: (String, String), k: int)
    requires
        0 <= k <= found.len(),
    ensures
        finds(found.push(last), k) == finds(found, k),
    decreases k,
{
    if k > 0 {
        lemma_finds_push(found, last, k - 1);
        assert(found.push(last)[k - 1] == found[k - 1]);
    }
}

impl Tools {
    /// Nothing found yet, and no folder named.
    pub fn new() -> (r: Tools)
        ensures
            r@ == (ToolMemory { managed: None, found: Map::empty() }),
    {
        Tools { managed: None, found: Vec::new() }
    }

    /// Names the folder of the application's own copy. The first name stands.
    pub fn set_managed_dir(&mut self, dir: String)
        ensures
            final(self)@ == (ToolMemory {
                managed: if old(self)@.managed is Some {
                    old(self)@.managed
                } else {
                    Some(dir@)
                },
                found: old(self)@.found,
            }),
    {
        if self.managed.is_none() {
            self.managed = Some(dir);
        }
    }

    /// Where the application keeps the copy it downloaded itself, whether or not one is there
    /// yet. `usual` is where that would be by the system's own conventions.
    pub fn managed_dir(&self, usual: Option<String>) -> (r: Option<String>)
        ensures
            text::maybe_text(r) == (if self@.managed is Some {
                self@.managed
            } else {
                text::maybe_text(usual)
            }),
    {
        match &self.managed {
            Some(dir) => Some(copy(dir)),
            None => usual,
        }
    }

    /// Drops what was found, so that the next lookup searches again.
    pub fn forget_resolved_tools(&mut self)
        ensures
            final(self)@ == (ToolMemory { managed: old(self)@.managed, found: Map::empty() }),
    {
        self.found = Vec::new();
    }

    /// Keeps the path of a tool that was found. A miss is never kept.
    pub fn remember(&mut self, name: String, path: String)
        ensures
            final(self)@ == (ToolMemory {
                managed: old(self)@.managed,
                found: old(self)@.found.insert(name@, path@),
            }),
    {
        let ghost before = self.found@;
        let ghost last = (name, path);
        self.found.push((name, path));
        proof {
            lemma_finds_push(before, last, before.len() as int);
        }
    }

    /// The path of a tool that was found before.
    pub fn cached_tool(&self, name: &str) -> (r: Option<String>)
        ensures
            text::maybe_text(r) == (if self@.found.contains_key(name@) {
                Some(self@.found[name@])
            } else {
                None
            }),
    {
        let mut k: usize = self.found.len();
        while k > 0
            invariant
                k <= self.found.len(),
                finds(self.found@, self.found@.len() as int).contains_key(name@) <==> finds(
                    self.found@,
                    k as int,
                ).contains_key(name@),
                finds(self.found@, k as int).contains_key(name@) ==> finds(
                    self.found@,
                    self.found@.len() as int,
                )[name@] == finds(self.found@, k as int)[name@],
            decreases k,
        {
            let (known, path) = &self.found[k - 1];
            if *known.as_str() == *name {
                return Some(copy(path));
            }
            k -= 1;
        }
        None
    }

    /// Looks a tool up: its path, or `None` where it has to be searched for.
    pub fn resolve_tool(&self, name: &str) -> (r: ToolLookup)
        ensures
            match r {
                ToolLookup::Known(path) => self@.found.contains_key(name@) && path@
                    == self@.found[name@],
                ToolLookup::Search => !self@.found.contains_key(name@),
            },
    {
        match self.cached_tool(name) {
            Some(path) => ToolLookup::Known(path),
            None => ToolLookup::Search,
        }
    }

    /// What a lookup that also wants the tool's version comes to. Only the path is remembered, so
    /// a known tool is run once more, and `ran` is what it printed; a tool that had to be searched
    /// for comes with `searched`, its path and what it printed.
    pub fn resolve_tool_with_version(
        &mut self,
        name: &str,
        ran: Option<String>,
        searched: Option<(String, String)>,
    ) -> (r: Option<(String, String)>)
        ensures
            ({
                let known = old(self)@.found.contains_key(name@);
                &&& known ==> final(self)@ == old(self)@ && (r is Some <==> ran is Some) && (r matches
                    Some(pair) ==> pair.0@ == old(self)@.found[name@] && pair.1 == ran->0)
                &&& !known && searched is Some ==> r == searched && final(self)@ == (ToolMemory {
                    managed: old(self)@.managed,
                    found: old(self)@.found.insert(name@, (searched->0).0@),
                })
                &&& !known && searched is None ==> r is None && final(self)@ == old(self)@
            }),
    {
        if let Some(path) = self.cached_tool(name) {
            return match ran {
                Some(printed) => Some((path, printed)),
                None => None,
            };
        }
        match searched {
            Some((path, printed)) => {
                self.remember(name.to_string(), copy(&path));
                Some((path, printed))
            },
            None => None,
        }
    }
}

/// What looking a tool up comes to.
#[derive(Debug)]
pub enum ToolLookup {
    Known(String),
    Search,
}

/// What is found after a search is known until it is forgotten, and nothing else is lost by it.
pub proof fn law_a_find_is_remembered(m: ToolMemory, name: Seq<char>, path: Seq<char>, other: Seq<char>)
    ensures
        ({
            let after = m.found.insert(name, path);
            &&& after.contains_key(name) && after[name] == path
            &&& other != name ==> (after.contains_key(other) <==> m.found.contains_key(other)) && (
            m.found.contains_key(other) ==> after[other] == m.found[other])
            &&& !Map::<Seq<char>, Seq<char>>::empty().contains_key(name)
        }),
{
}

// --- The search ---

/// Where a search stands. The folders come first, in their order, and the bare name last, so that
/// the system's own search still gets its turn; a candidate that is a link is tried as it is and
/// then at what it points to.
#[derive(Debug, Clone, Copy, PartialEq, Eq, Structural)]
pub enum SearchState {
    /// Is there another folder to look in?
    NextFolder,
    /// Is there a file of that name in the folder?
    Exists,
    /// Does the candidate run?
    Runs { bare: bool },
    /// Is the candidate a link to something that is there?
    Links { bare: bool },
    /// Does what it links to run?
    TargetRuns { bare: bool },
    /// The search is over: the candidate, or what it links to, runs.
    Found { target: bool },
    /// The search is over and nothing runs.
    Missing,
}

/// Where a search goes from a question and its answer.
pub open spec fn searched_on(at: SearchState, yes: bool) -> SearchState {
    match at {
        SearchState::NextFolder => if yes {
            SearchState::Exists
        } else {
            SearchState::Runs { bare: true }
        },
        SearchState::Exists => if yes {
            SearchState::Runs { bare: false }
        } else {
            SearchState::NextFolder
        },
        SearchState::Runs { bare } => if yes {
            SearchState::Found { target: false }
        } else {
            SearchState::Links { bare }
        },
        SearchState::Links { bare } => if yes {
            SearchState::TargetRuns { bare }
        } else if bare {
            SearchState::Missing
        } else {
            SearchState::NextFolder
        },
        SearchState::TargetRuns { bare } => if yes {
            SearchState::Found { target: true }
        } else if bare {
            SearchState::Missing
        } else {
            SearchState::NextFolder
        },
        done => done,
    }
}

/// Where a search goes from a question and its answer.
pub fn search_on(at: SearchState, yes: bool) -> (r: SearchState)
    ensures
        r == searched_on(at, yes),
{
    match at {
        SearchState::NextFolder => if yes {
            SearchState::Exists
        } else {
            SearchState::Runs { bare: true }
        },
        SearchState::Exists => if yes {
            SearchState::Runs { bare: false }
        } else {
            SearchState::NextFolder
        },
        SearchState::Runs { bare } => if yes {
            SearchState::Found { target: false }
        } else {
            SearchState::Links { bare }
        },
        SearchState::Links { bare } => if yes {
            SearchState::TargetRuns { bare }
        } else if bare {
            SearchState::Missing
        } else {
            SearchState::NextFolder
        },
        SearchState::TargetRuns { bare } => if yes {
            SearchState::Found { target: true }
        } else if bare {
            SearchState::Missing
        } else {
            SearchState::NextFolder
        },
        done => done,
    }
}

/// A search ends with a find only on something that ran, and with nothing only once the bare name
/// has had its turn.
pub proof fn law_only_what_runs_is_found(at: SearchState, yes: bool)
    requires
        !(at is Found) && !(at is Missing),
    ensures
        searched_on(at, yes) is Found ==> yes && (at is Runs || at is TargetRuns),
        searched_on(at, yes) is Missing ==> !yes && (at == SearchState::Links { bare: true } || at
            == SearchState::TargetRuns { bare: true }),
{
}

/// The folders that FFmpeg is usually installed in: the variable that names the root of each, and
/// the way down from there.
pub fn known_places() -> (r: Vec<(&'static str, Vec<&'static str>)>)
    ensures
        r.len() == 4,
        r@[0].0@ == "LOCALAPPDATA"@,
        parts_of(r@[0].1@) == seq!["Microsoft"@, "WinGet"@, "Links"@],
        r@[1].0@ == "ProgramFiles"@,
        parts_of(r@[1].1@) == seq!["ffmpeg"@, "bin"@],
        r@[2].0@ == "ProgramData"@,
        parts_of(r@[2].1@) == seq!["chocolatey"@, "bin"@],
        r@[3].0@ == "LOCALAPPDATA"@,
        parts_of(r@[3].1@) == seq!["Programs"@, "ffmpeg"@, "bin"@],
{
    let links = vec!["Microsoft", "WinGet", "Links"];
    let files = vec!["ffmpeg", "bin"];
    let choco = vec!["chocolatey", "bin"];
    let programs = vec!["Programs", "ffmpeg", "bin"];
    proof {
        assert(parts_of(links@) =~= seq!["Microsoft"@, "WinGet"@, "Links"@]);
        assert(parts_of(files@) =~= seq!["ffmpeg"@, "bin"@]);
        assert(parts_of(choco@) =~= seq!["chocolatey"@, "bin"@]);
        assert(parts_of(programs@) =~= seq!["Programs"@, "ffmpeg"@, "bin"@]);
    }
    vec![
        ("LOCALAPPDATA", links),
        ("ProgramFiles", files),
        ("ProgramData", choco),
        ("LOCALAPPDATA", programs),
    ]
}

pub open spec fn parts_of(v: Seq<&'static str>) -> Seq<Seq<char>> {
    v.map_values(|s: &'static str| s@)
}

// --- Filters ---

/// The filter a line of FFmpeg's listing names: flags come first, so it is the second word.
pub open spec fn listed_filter(line: Seq<char>) -> Option<Seq<char>> {
    if text::words(line).len() > 1 {
        Some(text::words(line)[1])
    } else {
        None
    }
}

/// The filters that the first `k` lines of a listing name.
pub open spec fn listed_filters(lines: Seq<Seq<char>>, k: int) -> Seq<Seq<char>>
    decreases k,
{
    if k <= 0 {
        Seq::empty()
    } else {
        let before = listed_filters(lines, k - 1);
        match listed_filter(lines[k - 1]) {
            Some(name) => before.push(name),
            None => before,
        }
    }
}

/// The filters a listing names.
pub fn filters_in(listing: &str) -> (r: Vec<String>)
    ensures
        ({
            let lines = text::pieces(listing@, '\n');
            text::texts(r@) == listed_filters(lines, lines.len() as int)
        }),
{
    let lines = split(&chars_of(listing), '\n');
    let ghost spelled = text::spelled(lines@);
    let mut out: Vec<String> = Vec::new();
    let mut i: usize = 0;
    proof {
        assert(text::texts(out@) =~= listed_filters(spelled, 0));
    }
    while i < lines.len()
        invariant
            i <= lines.len(),
            spelled == text::spelled(lines@),
            text::texts(out@) == listed_filters(spelled, i as int),
        decreases lines.len() - i,
    {
        let words = split_words(&lines[i]);
        proof {
            assert(spelled[i as int] == lines@[i as int]@);
            assert(text::spelled(words@).len() == words.len());
        }
        if words.len() > 1 {
            proof {
                assert(text::spelled(words@)[1] == words@[1]@);
            }
            out.push(text_of(&words[1]));
        }
        i += 1;
    }
    out
}

/// Whether a build of FFmpeg has a filter. A listing that could not be read answers yes: a probe
/// that failed is no evidence that the filter is missing.
pub fn has_filter(filters: &Vec<String>, name: &str) -> (r: bool)
    ensures
        r == (filters.len() == 0 || text::texts(filters@).contains(name@)),
{
    if filters.len() == 0 {
        return true;
    }
    let mut i: usize = 0;
    while i < filters.len()
        invariant
            i <= filters.len(),
            forall|j: int| 0 <= j < i ==> (#[trigger] filters@[j])@ != name@,
        decreases filters.len() - i,
    {
        if *filters[i].as_str() == *name {
            proof {
                assert(text::texts(filters@)[i as int] == name@);
            }
            return true;
        }
        i += 1;
    }
    proof {
        assert forall|j: int| 0 <= j < text::texts(filters@).len() implies #[trigger] text::texts(
            filters@,
        )[j] != name@ by {
            assert(text::texts(filters@)[j] == filters@[j]@);
        }
    }
    false
}

// --- What holds of a filter listing ---

/// A line of the listing names its filter behind the flags, however far the columns stand apart.
pub proof fn law_a_filter_stands_behind_its_flags(
    before: Seq<char>,
    flags: Seq<char>,
    gap: Seq<char>,
    name: Seq<char>,
    more: Seq<char>,
)
    requires
        forall|i: int| 0 <= i < before.len() ==> text::white(#[trigger] before[i]),
        flags.len() > 0,
        forall|i: int| 0 <= i < flags.len() ==> !text::white(#[trigger] flags[i]),
        gap.len() > 0,
        forall|i: int| 0 <= i < gap.len() ==> text::white(#[trigger] gap[i]),
        name.len() > 0,
        forall|i: int| 0 <= i < name.len() ==> !text::white(#[trigger] name[i]),
        more.len() > 0 ==> text::white(more[0]),
    ensures
        listed_filter(before + flags + gap + name + more) == Some(name),
{
    let rest = gap + name + more;
    assert(before + flags + gap + name + more =~= before + flags + rest);
    assert(rest[0] == gap[0]);
    text::law_white_space_parts_words(before, flags, rest);
    text::law_white_space_parts_words(gap, name, more);
}

} // verus!
