//! Route a task to installed agent skills, by the scoring service or by the
//! words they share with the task.
//!
//! Reads `<library>/*/SKILL.md` (YAML front matter only — never the body).

use vstd::prelude::*;
use crate::bytes::{byte_len, lossy, utf8_lossy, within};
use crate::error::{Error, ErrorView};
use crate::front::{cap_description, capped, parse_skill_md, parsed};
use crate::jev::{
    fell_back, not_a_number, noul_order, order_nouls, ran, Outcome, RankStatus, StatusView,
};
use crate::order::{
    at_most, lemma_text_order, score_above, score_key, sort, sorted, text_before, text_precedes,
    views, Ranked,
};
use crate::paths::{join_of, join_path};
use crate::text::{
    chars_of, is_longest_run, join, joined, lemma_filter_step, longest_run, opt_str, runs,
    runs_are_the_longest, same, split_runs, string_of, texts, trim, trimmed,
};

verus! {

/// Names the library in the process environment.
pub const ENV_SKILLS_DIR: &'static str = "ONE_GREP_SKILLS_DIR";

/// Where the library is unless another is named, below the home directory.
pub const DEFAULT_SKILLS_REL: &'static str = ".local/share/agent-skills";

/// How much of a `SKILL.md` is read, in bytes.
pub const SKILL_MD_READ_CAP: usize = 65536;

/// The bit pattern of 0.5 as a double: what the service must be sure of.
pub const FLOOR_BITS: u64 = 0x3fe0_0000_0000_0000;

/// One skill entry from front matter.
#[derive(Debug, Clone, PartialEq, Eq)]
pub struct SkillEntry {
    pub name: String,
    pub description: String,
    /// Absolute path to `SKILL.md` (canonical when the OS allows).
    pub skill_path: String,
}

/// What a [`SkillEntry`] says, as mathematical values.
pub struct EntryView {
    pub name: Seq<char>,
    pub description: Seq<char>,
    pub skill_path: Seq<char>,
}

impl View for SkillEntry {
    type V = EntryView;

    open spec fn view(&self) -> EntryView {
        EntryView {
            name: self.name@,
            description: self.description@,
            skill_path: self.skill_path@,
        }
    }
}

/// How well a skill fits a task.
#[derive(Debug, Clone, Copy, PartialEq, Eq, Structural)]
pub enum SkillScore {
    /// How many of how many words of the task it shares.
    Share { overlap: usize, of: usize },
    /// The score of the service, as the bit pattern of a double.
    Noul(u64),
}

/// A ranked skill returned to callers.
#[derive(Debug)]
pub struct SkillHit {
    pub name: String,
    pub path: String,
    pub score: SkillScore,
    pub description: String,
}

/// What a [`SkillHit`] says, as mathematical values.
pub struct SkillHitView {
    pub name: Seq<char>,
    pub path: Seq<char>,
    pub score: SkillScore,
    pub description: Seq<char>,
}

impl View for SkillHit {
    type V = SkillHitView;

    open spec fn view(&self) -> SkillHitView {
        SkillHitView {
            name: self.name@,
            path: self.path@,
            score: self.score,
            description: self.description@,
        }
    }
}

/// A skill with its score, its description on one line and not too long.
pub open spec fn hit_of(e: EntryView, score: SkillScore) -> SkillHitView {
    SkillHitView { name: e.name, path: e.skill_path, score, description: capped(e.description) }
}

fn entry_to_hit(e: &SkillEntry, score: SkillScore) -> (r: SkillHit)
    ensures
        r@ == hit_of(e@, score),
{
    SkillHit {
        name: e.name.clone(),
        path: e.skill_path.clone(),
        score,
        description: cap_description(e.description.as_str()),
    }
}

/// The directory of the skill library: the one asked for, the one that the
/// environment names, the one below the home directory.
pub open spec fn library_dir(dir: Option<Seq<char>>, env: Option<Seq<char>>, home: Option<Seq<char>>) -> Seq<char> {
    match dir {
        Some(d) => d,
        None => if env is Some && trimmed(env->0).len() > 0 {
            trimmed(env->0)
        } else {
            match home {
                Some(h) => join_of(h, DEFAULT_SKILLS_REL@),
                None => DEFAULT_SKILLS_REL@,
            }
        },
    }
}

/// Resolve the skill library directory.
pub fn resolve_library_dir(dir: Option<&str>, env: Option<&str>, home: Option<&str>) -> (r: String)
    ensures
        r@ == library_dir(opt_str(dir), opt_str(env), opt_str(home)),
{
    if let Some(d) = dir {
        return d.to_owned();
    }
    if let Some(raw) = env {
        let cs = chars_of(raw);
        let t = trim(&cs);
        if t.len() > 0 {
            return string_of(t);
        }
    }
    match home {
        Some(h) => join_path(h, DEFAULT_SKILLS_REL),
        None => DEFAULT_SKILLS_REL.to_owned(),
    }
}

/// What `str::to_lowercase` makes of a text.
pub uninterp spec fn lowercase(s: Seq<char>) -> Seq<char>;

/// Whether `char::is_alphanumeric` holds of a character.
pub uninterp spec fn alphanumeric(c: char) -> bool;

/// `str::to_lowercase`: the lower case of a text is a function of the text.
pub assume_specification[ str::to_lowercase ](s: &str) -> (r: String)
    ensures
        r@ == lowercase(s@),
;

/// `char::is_alphanumeric`: a fixed property of each character.
pub assume_specification[ char::is_alphanumeric ](c: char) -> (r: bool)
    ensures
        r == alphanumeric(c),
;

/// Words that say nothing about a task.
pub open spec fn stopwords() -> Seq<Seq<char>> {
    seq![
        "a"@, "an"@, "the"@, "and"@, "or"@, "for"@, "to"@, "of"@, "in"@, "on"@, "with"@, "is"@,
        "are"@, "be"@, "this"@, "that"@, "from"@, "as"@, "at"@, "by"@, "it"@, "do"@, "does"@,
        "how"@, "what"@, "when"@, "where"@, "which"@, "who"@, "whom"@, "into"@, "via"@, "use"@,
        "using"@, "need"@, "your"@, "you"@,
    ]
}

const STOPWORDS: [&'static str; 37] = [
    "a", "an", "the", "and", "or", "for", "to", "of", "in", "on", "with", "is", "are", "be", "this",
    "that", "from", "as", "at", "by", "it", "do", "does", "how", "what", "when", "where", "which",
    "who", "whom", "into", "via", "use", "using", "need", "your", "you",
];

fn is_stopword(t: &str) -> (r: bool)
    ensures
        r == stopwords().contains(t@),
{
    let words = STOPWORDS;
    let mut i: usize = 0;
    while i < words.len()
        invariant
            i <= words@.len(),
            words == STOPWORDS,
            forall|j: int| 0 <= j < i ==> #[trigger] stopwords()[j] != t@,
        decreases words@.len() - i,
    {
        proof {
            assert(words@[i as int]@ == stopwords()[i as int]);
        }
        if same(words[i], t) {
            return true;
        }
        i += 1;
    }
    false
}

/// Whether a word counts: it is longer than a byte and says something.
pub open spec fn counts(t: Seq<char>) -> bool {
    byte_len(t) > 1 && !stopwords().contains(t)
}

/// The words of a text in lower case whose characters are marked.
pub open spec fn words_in(low: Seq<char>, marks: Seq<bool>) -> Set<Seq<char>> {
    runs(low, marks).filter(|t: Seq<char>| counts(t)).to_set()
}

/// Which characters belong to words.
pub open spec fn word_marks(low: Seq<char>) -> Seq<bool> {
    Seq::new(low.len(), |i: int| alphanumeric(low[i]))
}

/// The words of a text.
pub open spec fn tokens_of(text: Seq<char>) -> Set<Seq<char>> {
    words_in(lowercase(text), word_marks(lowercase(text)))
}

fn contains_text(v: &[String], s: &str) -> (r: bool)
    ensures
        r == texts(v@).contains(s@),
{
    let mut i: usize = 0;
    while i < v.len()
        invariant
            i <= v@.len(),
            forall|j: int| 0 <= j < i ==> (#[trigger] texts(v@)[j]) != s@,
        decreases v@.len() - i,
    {
        proof {
            assert(texts(v@)[i as int] == v@[i as int]@);
        }
        if same(v[i].as_str(), s) {
            return true;
        }
        i += 1;
    }
    proof {
        if texts(v@).contains(s@) {
            let j = choose|j: int| 0 <= j < texts(v@).len() && texts(v@)[j] == s@;
            assert(texts(v@)[j] != s@);
        }
    }
    false
}

/// The words of a text in lower case whose characters are marked, each once.
pub fn collect_words(low: &str, marks: &[bool]) -> (r: Vec<String>)
    requires
        marks@.len() == low@.len(),
    ensures
        texts(r@).no_duplicates(),
        texts(r@).to_set() == words_in(low@, marks@),
{
    let cs = chars_of(low);
    let found = split_runs(&cs, marks);
    let ghost all = texts(found@);
    let ghost good = |t: Seq<char>| counts(t);
    let mut out: Vec<String> = Vec::new();
    let mut i: usize = 0;
    proof {
        reveal(Seq::filter);
        assert(texts(out@) =~= Seq::<Seq<char>>::empty());
        assert(all.take(0).filter(good) =~= Seq::<Seq<char>>::empty());
        assert(texts(out@).to_set() =~= all.take(0).filter(good).to_set());
    }
    while i < found.len()
        invariant
            i <= found@.len(),
            all == texts(found@),
            good == (|t: Seq<char>| counts(t)),
            texts(out@).no_duplicates(),
            texts(out@).to_set() == all.take(i as int).filter(good).to_set(),
        decreases found@.len() - i,
    {
        let ghost before = out@;
        let ghost f = all.take(i as int).filter(good);
        proof {
            lemma_filter_step(all, i as int, good);
            assert(all[i as int] == found@[i as int]@);
        }
        let w = found[i].as_str();
        if !within(&chars_of(w), 1) && !is_stopword(w) {
            proof {
                assert(f.push(w@).to_set() =~= f.to_set().insert(w@)) by {
                    assert forall|x: Seq<char>|
                        f.push(w@).to_set().contains(x) <==> f.to_set().insert(w@).contains(x) by {
                        if f.contains(x) {
                            let k = choose|k: int| 0 <= k < f.len() && f[k] == x;
                            assert(f.push(w@)[k] == x);
                        }
                        if x == w@ {
                            assert(f.push(w@)[f.len() as int] == x);
                        }
                    }
                }
            }
            if !contains_text(&out, w) {
                out.push(found[i].clone());
                proof {
                    let o = texts(before);
                    assert(texts(out@) =~= o.push(w@));
                    assert(o.push(w@).to_set() =~= o.to_set().insert(w@)) by {
                        assert forall|x: Seq<char>|
                            o.push(w@).to_set().contains(x) <==> o.to_set().insert(w@).contains(
                                x,
                            ) by {
                            if o.contains(x) {
                                let k = choose|k: int| 0 <= k < o.len() && o[k] == x;
                                assert(o.push(w@)[k] == x);
                            }
                            if x == w@ {
                                assert(o.push(w@)[o.len() as int] == x);
                            }
                        }
                    }
                }
            } else {
                proof {
                    assert(texts(out@).to_set().contains(w@));
                    assert(f.to_set().insert(w@) =~= f.to_set());
                }
            }
        }
        i += 1;
    }
    proof {
        assert(all.take(i as int) =~= all);
    }
    out
}

/// The words of a text, each once.
pub fn tokens(text: &str) -> (r: Vec<String>)
    ensures
        texts(r@).no_duplicates(),
        texts(r@).to_set() == tokens_of(text@),
{
    let low = text.to_lowercase();
    let cs = chars_of(low.as_str());
    let mut marks: Vec<bool> = Vec::new();
    let mut i: usize = 0;
    while i < cs.len()
        invariant
            i <= cs@.len(),
            cs@ == low@,
            marks@ == word_marks(low@).take(i as int),
        decreases cs@.len() - i,
    {
        let c = cs[i];
        marks.push(c.is_alphanumeric());
        proof {
            assert(marks@ =~= word_marks(low@).take(i + 1));
        }
        i += 1;
    }
    proof {
        assert(marks@ =~= word_marks(low@));
    }
    collect_words(low.as_str(), &marks)
}

/// How many words two lists share.
pub fn shared_words(a: &[String], b: &[String]) -> (r: usize)
    requires
        texts(a@).no_duplicates(),
    ensures
        r == texts(a@).to_set().intersect(texts(b@).to_set()).len(),
        r <= a@.len(),
{
    let ghost ta = texts(a@);
    let ghost sb = texts(b@).to_set();
    let mut n: usize = 0;
    let mut i: usize = 0;
    proof {
        assert(ta.take(0).to_set() =~= Set::<Seq<char>>::empty());
        assert(ta.take(0).to_set().intersect(sb) =~= Set::<Seq<char>>::empty());
    }
    while i < a.len()
        invariant
            n <= i <= a@.len(),
            ta == texts(a@),
            ta.no_duplicates(),
            sb == texts(b@).to_set(),
            n == ta.take(i as int).to_set().intersect(sb).len(),
        decreases a@.len() - i,
    {
        proof {
            let s = ta.take(i as int);
            let x = ta[i as int];
            assert(x == a@[i as int]@);
            assert(ta.take(i + 1) =~= s.push(x));
            assert(!s.contains(x));
            assert(s.push(x).to_set() =~= s.to_set().insert(x)) by {
                assert forall|y: Seq<char>|
                    s.push(x).to_set().contains(y) <==> s.to_set().insert(x).contains(y) by {
                    if s.contains(y) {
                        let k = choose|k: int| 0 <= k < s.len() && s[k] == y;
                        assert(s.push(x)[k] == y);
                    }
                    if y == x {
                        assert(s.push(x)[s.len() as int] == y);
                    }
                }
            }
            if texts(b@).contains(x) {
                assert(s.to_set().insert(x).intersect(sb) =~= s.to_set().intersect(sb).insert(x));
            } else {
                assert(s.to_set().insert(x).intersect(sb) =~= s.to_set().intersect(sb));
            }
        }
        if contains_text(b, a[i].as_str()) {
            n += 1;
        }
        i += 1;
    }
    proof {
        assert(ta.take(i as int) =~= ta);
    }
    n
}

/// What is read about a skill: its name and its description.
pub open spec fn doc_of(e: EntryView) -> Seq<char> {
    e.name + " "@ + e.description
}

/// What is read about each skill.
pub fn skill_docs(entries: &[SkillEntry]) -> (r: Vec<String>)
    ensures
        texts(r@) == Seq::new(entries@.len(), |i: int| doc_of(entries@[i]@)),
{
    let ghost all = Seq::new(entries@.len(), |i: int| doc_of(entries@[i]@));
    let mut out: Vec<String> = Vec::new();
    let mut i: usize = 0;
    while i < entries.len()
        invariant
            i <= entries@.len(),
            all == Seq::new(entries@.len(), |i: int| doc_of(entries@[i]@)),
            texts(out@) == all.take(i as int),
        decreases entries@.len() - i,
    {
        let ghost before = out@;
        let mut d = entries[i].name.clone();
        d.append(" ");
        d.append(entries[i].description.as_str());
        out.push(d);
        proof {
            assert(all[i as int] == d@);
            assert(texts(out@) =~= texts(before).push(d@));
            assert(texts(out@) =~= all.take(i + 1));
        }
        i += 1;
    }
    proof {
        assert(all.take(i as int) =~= all);
    }
    out
}

/// A skill and how many words it shares with the task; those that share more
/// come first, and of those that share as many the one with the smaller name.
#[derive(Debug)]
pub struct Weighed {
    /// Which skill.
    pub index: usize,
    /// How many words it shares.
    pub overlap: usize,
    /// Its name.
    pub name: String,
}

/// What a [`Weighed`] says, as mathematical values.
pub struct WeighedView {
    pub index: usize,
    pub overlap: usize,
    pub name: Seq<char>,
}

impl View for Weighed {
    type V = WeighedView;

    open spec fn view(&self) -> WeighedView {
        WeighedView { index: self.index, overlap: self.overlap, name: self.name@ }
    }
}

impl Ranked for Weighed {
    open spec fn precedes(a: WeighedView, b: WeighedView) -> bool {
        a.overlap > b.overlap || (a.overlap == b.overlap && text_precedes(a.name, b.name))
    }

    fn before(&self, other: &Weighed) -> (r: bool) {
        self.overlap > other.overlap || (self.overlap == other.overlap && text_before(
            self.name.as_str(),
            other.name.as_str(),
        ))
    }

    proof fn lemma_order(a: WeighedView, b: WeighedView, c: WeighedView) {
        lemma_text_order(a.name, b.name, c.name);
    }
}

/// The skills with what they share, in turn.
pub open spec fn weighed_in_turn(entries: Seq<EntryView>, overlaps: Seq<usize>) -> Seq<WeighedView> {
    Seq::new(
        entries.len(),
        |i: int| WeighedView { index: i as usize, overlap: overlaps[i], name: entries[i].name },
    )
}

/// Whether a skill shares enough with a task of `of` words: one word at
/// least, and a fifth of them.
pub open spec fn enough(w: WeighedView, of: int) -> bool {
    w.overlap >= 1 && 5 * w.overlap >= of
}

/// The skills that share enough with a task, best first, at most `limit`.
pub open spec fn lexical_hits(entries: Seq<EntryView>, overlaps: Seq<usize>, of: usize, limit: int) -> Seq<SkillHitView> {
    if of == 0 {
        Seq::empty()
    } else {
        let picks = at_most(
            sorted::<Weighed>(weighed_in_turn(entries, overlaps)).filter(
                |w: WeighedView| enough(w, of as int),
            ),
            limit,
        );
        Seq::new(
            picks.len(),
            |i: int|
                hit_of(
                    entries[picks[i].index as int],
                    SkillScore::Share { overlap: picks[i].overlap, of },
                ),
        )
    }
}

/// What the sorted skills name are skills.
proof fn lemma_weighed(entries: Seq<EntryView>, overlaps: Seq<usize>, i: int)
    requires
        entries.len() <= usize::MAX,
        0 <= i < sorted::<Weighed>(weighed_in_turn(entries, overlaps)).len(),
    ensures
        sorted::<Weighed>(weighed_in_turn(entries, overlaps))[i].index < entries.len(),
        sorted::<Weighed>(weighed_in_turn(entries, overlaps))[i].overlap == overlaps[sorted::<
            Weighed,
        >(weighed_in_turn(entries, overlaps))[i].index as int],
{
    let a = weighed_in_turn(entries, overlaps);
    let s = sorted::<Weighed>(a);
    crate::order::sort_orders::<Weighed>(a);
    a.to_multiset_ensures();
    s.to_multiset_ensures();
    assert(s.contains(s[i]));
    assert(a.to_multiset().count(s[i]) > 0);
    assert(a.contains(s[i]));
    let j = choose|j: int| 0 <= j < a.len() && a[j] == s[i];
    assert(a[j].index == j);
}

/// Rank skills by how many of a task's `of` words they share.
pub fn rank_by_overlap(entries: &[SkillEntry], overlaps: &[usize], of: usize, limit: usize) -> (r: Vec<
    SkillHit,
>)
    requires
        overlaps@.len() == entries@.len(),
    ensures
        views(r@) == lexical_hits(views(entries@), overlaps@, of, limit as int),
{
    let ghost ev = views(entries@);
    let mut out: Vec<SkillHit> = Vec::new();
    if of == 0 {
        proof {
            assert(views(out@) =~= Seq::<SkillHitView>::empty());
        }
        return out;
    }
    let ghost turn = weighed_in_turn(ev, overlaps@);
    let mut v: Vec<Weighed> = Vec::new();
    let mut i: usize = 0;
    while i < entries.len()
        invariant
            i <= entries@.len(),
            overlaps@.len() == entries@.len(),
            ev == views(entries@),
            turn == weighed_in_turn(ev, overlaps@),
            views(v@) == turn.take(i as int),
        decreases entries@.len() - i,
    {
        let ghost before = v@;
        let w = Weighed { index: i, overlap: overlaps[i], name: entries[i].name.clone() };
        v.push(w);
        proof {
            assert(ev[i as int] == entries@[i as int]@);
            assert(turn[i as int] == w@);
            assert(views(v@) =~= views(before).push(w@));
            assert(views(v@) =~= turn.take(i + 1));
        }
        i += 1;
    }
    let count: usize = entries.len();
    proof {
        assert(turn.take(i as int) =~= turn);
    }
    let by = sort(v);
    let ghost s = views(by@);
    let ghost ok = |w: WeighedView| enough(w, of as int);
    let mut k: usize = 0;
    let ghost mut picks: Seq<WeighedView> = Seq::empty();
    proof {
        reveal(Seq::filter);
        assert(picks =~= at_most(s.take(0).filter(ok), limit as int));
        assert(views(out@) =~= Seq::<SkillHitView>::empty());
        assert(views(out@) =~= Seq::new(
            picks.len(),
            |i: int|
                hit_of(
                    ev[picks[i].index as int],
                    SkillScore::Share { overlap: picks[i].overlap, of },
                ),
        ));
    }
    while k < by.len()
        invariant
            k <= by@.len(),
            s == views(by@),
            s == sorted::<Weighed>(turn),
            turn == weighed_in_turn(ev, overlaps@),
            ev == views(entries@),
            count == entries@.len(),
            ok == (|w: WeighedView| enough(w, of as int)),
            picks == at_most(s.take(k as int).filter(ok), limit as int),
            views(out@) == Seq::new(
                picks.len(),
                |i: int|
                    hit_of(
                        ev[picks[i].index as int],
                        SkillScore::Share { overlap: picks[i].overlap, of },
                    ),
            ),
        decreases by@.len() - k,
    {
        let ghost before = out@;
        let ghost p0 = picks;
        let ghost f = s.take(k as int).filter(ok);
        proof {
            lemma_filter_step(s, k as int, ok);
            lemma_weighed(ev, overlaps@, k as int);
            assert(s[k as int] == by@[k as int]@);
            assert(views(out@).len() == out@.len());
        }
        let w = &by[k];
        if w.overlap >= 1 && (w.overlap >= of || 5u128 * (w.overlap as u128) >= of as u128) {
            if out.len() < limit {
                let h = entry_to_hit(
                    &entries[w.index],
                    SkillScore::Share { overlap: w.overlap, of },
                );
                out.push(h);
                proof {
                    picks = p0.push(w@);
                    assert(picks =~= at_most(f.push(w@), limit as int));
                    assert(ev[w.index as int] == entries@[w.index as int]@);
                    assert(views(out@) =~= views(before).push(h@));
                    assert(views(out@) =~= Seq::new(
                        picks.len(),
                        |i: int|
                            hit_of(
                                ev[picks[i].index as int],
                                SkillScore::Share { overlap: picks[i].overlap, of },
                            ),
                    ));
                }
            } else {
                proof {
                    assert(p0 =~= at_most(f.push(w@), limit as int));
                }
            }
        }
        k += 1;
    }
    proof {
        assert(s.take(k as int) =~= s);
    }
    out
}

/// How many words of a task each skill shares.
pub open spec fn overlaps_with(task: Set<Seq<char>>, entries: Seq<EntryView>) -> Seq<usize> {
    Seq::new(
        entries.len(),
        |i: int| task.intersect(tokens_of(doc_of(entries[i]))).len() as usize,
    )
}

/// The skills for a task by the words they share with it.
pub open spec fn lexical_ranking(task: Seq<char>, entries: Seq<EntryView>, limit: int) -> Seq<SkillHitView> {
    let words = tokens_of(task);
    lexical_hits(entries, overlaps_with(words, entries), words.len() as usize, limit)
}

/// Rank skills by the words they share with a task.
pub fn lexical_rank(task: &str, entries: &[SkillEntry], limit: usize) -> (r: Vec<SkillHit>)
    ensures
        views(r@) == lexical_ranking(task@, views(entries@), limit as int),
{
    let words = tokens(task);
    let docs = skill_docs(entries);
    let ghost ev = views(entries@);
    let ghost tw = tokens_of(task@);
    let ghost all = overlaps_with(tw, ev);
    let mut overlaps: Vec<usize> = Vec::new();
    let mut i: usize = 0;
    proof {
        assert(texts(docs@).len() == docs@.len());
        texts(words@).unique_seq_to_set();
        assert(words@.len() == tw.len());
    }
    while i < entries.len()
        invariant
            i <= entries@.len(),
            docs@.len() == entries@.len(),
            texts(docs@) == Seq::new(entries@.len(), |i: int| doc_of(entries@[i]@)),
            ev == views(entries@),
            tw == tokens_of(task@),
            all == overlaps_with(tw, ev),
            texts(words@).no_duplicates(),
            texts(words@).to_set() == tw,
            overlaps@ == all.take(i as int),
        decreases entries@.len() - i,
    {
        let t = tokens(docs[i].as_str());
        let n = shared_words(&words, &t);
        overlaps.push(n);
        proof {
            assert(texts(docs@)[i as int] == docs@[i as int]@);
            assert(ev[i as int] == entries@[i as int]@);
            assert(all[i as int] == n);
            assert(overlaps@ =~= all.take(i + 1));
        }
        i += 1;
    }
    proof {
        assert(all.take(i as int) =~= all);
    }
    rank_by_overlap(entries, &overlaps, words.len(), limit)
}

/// Whether a probability is a half or more.
pub open spec fn at_least_half(bits: u64) -> bool {
    !not_a_number(bits) && score_key(bits) >= score_key(FLOOR_BITS)
}

fn half_or_more(bits: u64) -> (r: bool)
    ensures
        r == at_least_half(bits),
{
    let m: u64 = if bits >= 0x8000_0000_0000_0000 {
        bits - 0x8000_0000_0000_0000
    } else {
        bits
    };
    m <= 0x7ff0_0000_0000_0000 && !score_above(FLOOR_BITS, bits)
}

/// The skills that the service scores a half or more, best first, at most
/// `limit`; none unless it is as sure that there is one.
pub open spec fn scored_hits(
    entries: Seq<EntryView>,
    exists_: Option<u64>,
    scores: Seq<Option<u64>>,
    limit: int,
) -> Seq<SkillHitView> {
    if exists_ is Some && at_least_half(exists_->0) {
        let picks = at_most(
            noul_order(scores).filter(|p: (usize, u64)| at_least_half(p.1)),
            limit,
        );
        Seq::new(
            picks.len(),
            |i: int| hit_of(entries[picks[i].0 as int], SkillScore::Noul(picks[i].1)),
        )
    } else {
        Seq::empty()
    }
}

/// The skills that the service picks.
pub fn rank_by_scores(entries: &[SkillEntry], exists: Option<u64>, scores: &[Option<u64>], limit: usize) -> (r:
    Vec<SkillHit>)
    requires
        scores@.len() == entries@.len(),
    ensures
        views(r@) == scored_hits(views(entries@), exists, scores@, limit as int),
{
    let ghost ev = views(entries@);
    let mut out: Vec<SkillHit> = Vec::new();
    let sure = match exists {
        Some(p) => half_or_more(p),
        None => false,
    };
    if !sure {
        proof {
            assert(views(out@) =~= Seq::<SkillHitView>::empty());
        }
        return out;
    }
    let by = order_nouls(scores);
    let ghost s = views(by@);
    let ghost ok = |p: (usize, u64)| at_least_half(p.1);
    let mut k: usize = 0;
    let ghost mut picks: Seq<(usize, u64)> = Seq::empty();
    let count: usize = entries.len();
    proof {
        crate::jev::noul_order_names_all(scores@);
        reveal(Seq::filter);
        assert(picks =~= at_most(s.take(0).filter(ok), limit as int));
        assert(views(out@) =~= Seq::new(
            picks.len(),
            |i: int| hit_of(ev[picks[i].0 as int], SkillScore::Noul(picks[i].1)),
        ));
    }
    while k < by.len()
        invariant
            k <= by@.len(),
            s == views(by@),
            s == noul_order(scores@),
            scores@.len() == entries@.len(),
            count == entries@.len(),
            ev == views(entries@),
            forall|j: int| 0 <= j < s.len() ==> (#[trigger] s[j]).0 < entries@.len(),
            ok == (|p: (usize, u64)| at_least_half(p.1)),
            picks == at_most(s.take(k as int).filter(ok), limit as int),
            views(out@) == Seq::new(
                picks.len(),
                |i: int| hit_of(ev[picks[i].0 as int], SkillScore::Noul(picks[i].1)),
            ),
        decreases by@.len() - k,
    {
        let ghost before = out@;
        let ghost p0 = picks;
        let ghost f = s.take(k as int).filter(ok);
        proof {
            lemma_filter_step(s, k as int, ok);
            assert(s[k as int] == by@[k as int]@);
            assert(views(out@).len() == out@.len());
        }
        let w = &by[k];
        if half_or_more(w.score) {
            if out.len() < limit {
                let h = entry_to_hit(&entries[w.index], SkillScore::Noul(w.score));
                out.push(h);
                proof {
                    picks = p0.push(w@);
                    assert(picks =~= at_most(f.push(w@), limit as int));
                    assert(ev[w.index as int] == entries@[w.index as int]@);
                    assert(views(out@) =~= views(before).push(h@));
                    assert(views(out@) =~= Seq::new(
                        picks.len(),
                        |i: int| hit_of(ev[picks[i].0 as int], SkillScore::Noul(picks[i].1)),
                    ));
                }
            } else {
                proof {
                    assert(p0 =~= at_most(f.push(w@), limit as int));
                }
            }
        }
        k += 1;
    }
    proof {
        assert(s.take(k as int) =~= s);
    }
    out
}

/// The status and the skills that come of asking the service about a task.
pub open spec fn ranking_of(task: Seq<char>, entries: Seq<EntryView>, limit: int, outcome: Outcome) -> (
    StatusView,
    Seq<SkillHitView>,
) {
    match outcome {
        Outcome::Failed(reason) => (
            fell_back(reason@),
            lexical_ranking(task, entries, limit),
        ),
        Outcome::Answered { exists, scores } => (
            ran(exists),
            scored_hits(
                entries,
                match exists {
                    Some(p) => Some(p.bits),
                    None => None,
                },
                scores@,
                limit,
            ),
        ),
    }
}

/// Rank skills by what the service answered about a task, or by shared words
/// where it did not.
pub fn rank_entries(task: &str, entries: &[SkillEntry], limit: usize, outcome: Outcome) -> (r: (
    RankStatus,
    Vec<SkillHit>,
))
    requires
        outcome matches Outcome::Answered { exists, scores } ==> scores@.len() == entries@.len(),
    ensures
        (r.0@, views(r.1@)) == ranking_of(task@, views(entries@), limit as int, outcome),
{
    match outcome {
        Outcome::Failed(reason) => (
            RankStatus::fallback(reason.as_str()),
            lexical_rank(task, entries, limit),
        ),
        Outcome::Answered { exists, scores } => {
            let bits = match &exists {
                Some(p) => Some(p.bits),
                None => None,
            };
            let hits = rank_by_scores(entries, bits, &scores, limit);
            (RankStatus::jev(exists), hits)
        },
    }
}

/// A `SKILL.md` that is there.
#[derive(Debug)]
pub struct SkillFile {
    /// Where it is.
    pub path: String,
    /// What it holds, or why it cannot be read.
    pub bytes: Result<Vec<u8>, String>,
}

/// A folder of a skill library.
#[derive(Debug)]
pub struct Folder {
    /// Its name.
    pub name: String,
    /// Its `SKILL.md`, if it has one.
    pub skill: Option<SkillFile>,
}

/// What a [`Folder`] says, as mathematical values.
pub struct FolderView {
    pub name: Seq<char>,
    pub skill: Option<(Seq<char>, Result<Seq<u8>, Seq<char>>)>,
}

impl View for Folder {
    type V = FolderView;

    open spec fn view(&self) -> FolderView {
        FolderView {
            name: self.name@,
            skill: match self.skill {
                Some(f) => Some(
                    (
                        f.path@,
                        match f.bytes {
                            Ok(b) => Ok(b@),
                            Err(e) => Err(e@),
                        },
                    ),
                ),
                None => None,
            },
        }
    }
}

impl Ranked for Folder {
    open spec fn precedes(a: FolderView, b: FolderView) -> bool {
        text_precedes(a.name, b.name)
    }

    fn before(&self, other: &Folder) -> (r: bool) {
        text_before(self.name.as_str(), other.name.as_str())
    }

    proof fn lemma_order(a: FolderView, b: FolderView, c: FolderView) {
        lemma_text_order(a.name, b.name, c.name);
    }
}

/// What is said of a folder whose `SKILL.md` does not make a skill.
pub open spec fn skipped(name: Seq<char>, why: Seq<char>) -> Seq<char> {
    "skipped "@ + name + "/SKILL.md: "@ + why
}

/// What a folder makes: a skill, a note, or nothing.
pub open spec fn entry_of(f: FolderView) -> Result<Option<EntryView>, Seq<char>> {
    match f.skill {
        None => Ok(None),
        Some((_, Err(e))) => Err(skipped(f.name, e)),
        Some((path, Ok(bytes))) => match parsed(
            utf8_lossy(at_most(bytes, SKILL_MD_READ_CAP as int)),
            f.name,
        ) {
            Err(e) => Err(skipped(f.name, e)),
            Ok(None) => Err(skipped(f.name, "missing description"@)),
            Ok(Some((name, description))) => Ok(
                Some(EntryView { name, description, skill_path: path }),
            ),
        },
    }
}

/// The skills and notes that the first `n` folders make.
pub open spec fn scanned(fs: Seq<FolderView>, n: int) -> (Seq<EntryView>, Seq<Seq<char>>)
    decreases n,
{
    if n <= 0 {
        (Seq::empty(), Seq::empty())
    } else {
        let (entries, notes) = scanned(fs, n - 1);
        match entry_of(fs[n - 1]) {
            Ok(Some(e)) => (entries.push(e), notes),
            Ok(None) => (entries, notes),
            Err(m) => (entries, notes.push(m)),
        }
    }
}

fn note_skipped(name: &str, why: &str) -> (r: String)
    ensures
        r@ == skipped(name@, why@),
{
    let mut m = "skipped ".to_owned();
    m.append(name);
    m.append("/SKILL.md: ");
    m.append(why);
    m
}

fn read_entry(f: &Folder) -> (r: Result<Option<SkillEntry>, String>)
    ensures
        match r {
            Ok(Some(e)) => entry_of(f@) == Ok::<_, Seq<char>>(Some(e@)),
            Ok(None) => entry_of(f@) == Ok::<Option<EntryView>, Seq<char>>(None),
            Err(m) => entry_of(f@) == Err::<Option<EntryView>, _>(m@),
        },
{
    match &f.skill {
        None => Ok(None),
        Some(file) => match &file.bytes {
            Err(e) => Err(note_skipped(f.name.as_str(), e.as_str())),
            Ok(bytes) => {
                let n: usize = if bytes.len() <= SKILL_MD_READ_CAP {
                    bytes.len()
                } else {
                    SKILL_MD_READ_CAP
                };
                let head = vstd::slice::slice_subrange(bytes, 0, n);
                proof {
                    assert(head@ =~= at_most(bytes@, SKILL_MD_READ_CAP as int));
                }
                let text = lossy(head);
                match parse_skill_md(text.as_str(), f.name.as_str()) {
                    Err(e) => Err(note_skipped(f.name.as_str(), e.as_str())),
                    Ok(None) => Err(note_skipped(f.name.as_str(), "missing description")),
                    Ok(Some(p)) => Ok(
                        Some(
                            SkillEntry {
                                name: p.name,
                                description: p.description,
                                skill_path: file.path.clone(),
                            },
                        ),
                    ),
                }
            },
        },
    }
}

/// What a library holds: its skills in the order of its folders, and notes on
/// what was left out.
pub open spec fn library_of(dir: Seq<char>, present: bool, is_dir: bool, folders: Seq<FolderView>) -> Result<
    (Seq<EntryView>, Seq<Seq<char>>),
    ErrorView,
> {
    if !present {
        Ok((Seq::empty(), seq!["skill library not found: "@ + dir]))
    } else if !is_dir {
        Err(ErrorView::InvalidInput("skill library is not a directory: "@ + dir))
    } else {
        Ok(scanned(sorted::<Folder>(folders), folders.len() as int))
    }
}

/// Read the folders of a library: parse front matter, collect skip notes.
/// `present` says whether the library exists and `is_dir` whether it is a
/// directory.
pub fn scan_library(dir: &str, present: bool, is_dir: bool, folders: Vec<Folder>) -> (r: Result<
    (Vec<SkillEntry>, Vec<String>),
    Error,
>)
    ensures
        match r {
            Ok((entries, notes)) => library_of(dir@, present, is_dir, views(folders@)) == Ok::<
                _,
                ErrorView,
            >((views(entries@), texts(notes@))),
            Err(e) => library_of(dir@, present, is_dir, views(folders@)) == Err::<
                (Seq<EntryView>, Seq<Seq<char>>),
                _,
            >(e@),
        },
{
    let mut notes: Vec<String> = Vec::new();
    let mut entries: Vec<SkillEntry> = Vec::new();
    if !present {
        let mut m = "skill library not found: ".to_owned();
        m.append(dir);
        notes.push(m);
        proof {
            assert(texts(notes@) =~= seq!["skill library not found: "@ + dir@]);
            assert(views(entries@) =~= Seq::<EntryView>::empty());
        }
        return Ok((entries, notes));
    }
    if !is_dir {
        let mut m = "skill library is not a directory: ".to_owned();
        m.append(dir);
        return Err(Error::InvalidInput(m));
    }
    let ghost fv = views(folders@);
    proof {
        crate::order::sort_orders::<Folder>(fv);
    }
    let by = sort(folders);
    let ghost s = views(by@);
    let mut i: usize = 0;
    proof {
        assert(views(entries@) =~= Seq::<EntryView>::empty());
        assert(texts(notes@) =~= Seq::<Seq<char>>::empty());
    }
    while i < by.len()
        invariant
            i <= by@.len(),
            s == views(by@),
            (views(entries@), texts(notes@)) == scanned(s, i as int),
        decreases by@.len() - i,
    {
        let ghost e0 = entries@;
        let ghost n0 = notes@;
        proof {
            assert(s[i as int] == by@[i as int]@);
        }
        match read_entry(&by[i]) {
            Ok(Some(e)) => {
                entries.push(e);
                proof {
                    assert(views(entries@) =~= views(e0).push(e@));
                }
            },
            Ok(None) => {},
            Err(m) => {
                notes.push(m);
                proof {
                    assert(texts(notes@) =~= texts(n0).push(m@));
                }
            },
        }
        i += 1;
    }
    Ok((entries, notes))
}

/// Outcome of [`run`].
#[derive(Debug)]
pub struct SkillResult {
    pub rank_note: String,
    pub notes: Vec<String>,
    pub hits: Vec<SkillHit>,
    /// Set when the service's `exists` or per-candidate scores fail the floor.
    pub no_match: bool,
}

/// What a [`SkillResult`] says, as mathematical values.
pub struct ResultView {
    pub rank_note: Seq<char>,
    pub notes: Seq<Seq<char>>,
    pub hits: Seq<SkillHitView>,
    pub no_match: bool,
}

impl View for SkillResult {
    type V = ResultView;

    open spec fn view(&self) -> ResultView {
        ResultView {
            rank_note: self.rank_note@,
            notes: texts(self.notes@),
            hits: views(self.hits@),
            no_match: self.no_match,
        }
    }
}

/// The lines that show hits, each with its score as it is shown.
pub open spec fn hit_lines(hits: Seq<SkillHitView>, shown: Seq<Seq<char>>, n: int) -> Seq<Seq<char>>
    decreases n,
{
    if n <= 0 {
        Seq::empty()
    } else {
        let h = hits[n - 1];
        hit_lines(hits, shown, n - 1).push(
            h.name + "  "@ + h.path + "  ("@ + shown[n - 1] + ")"@,
        ).push(h.description)
    }
}

/// The lines of a result: rank header, notes, hits or `no matching skill`.
pub open spec fn result_lines(r: ResultView, shown: Seq<Seq<char>>) -> Seq<Seq<char>> {
    seq![r.rank_note] + r.notes + if r.no_match {
        seq!["no matching skill"@]
    } else {
        hit_lines(r.hits, shown, r.hits.len() as int)
    }
}

impl SkillResult {
    /// Human-readable text (rank header, notes, hits or `no matching skill`).
    /// `shown` holds the scores of the hits as they are shown.
    pub fn format_text(&self, shown: &[String]) -> (r: String)
        requires
            self.no_match || shown@.len() == self.hits@.len(),
        ensures
            r@ == joined(result_lines(self@, texts(shown@)), "\n"@),
    {
        let mut ls: Vec<String> = Vec::new();
        ls.push(self.rank_note.clone());
        let ghost nv = texts(self.notes@);
        let mut i: usize = 0;
        proof {
            assert(texts(ls@) =~= seq![self.rank_note@] + nv.take(0));
        }
        while i < self.notes.len()
            invariant
                i <= self.notes@.len(),
                nv == texts(self.notes@),
                texts(ls@) == seq![self.rank_note@] + nv.take(i as int),
            decreases self.notes@.len() - i,
        {
            let ghost before = ls@;
            let m = self.notes[i].clone();
            ls.push(m);
            proof {
                assert(nv[i as int] == m@);
                assert(texts(ls@) =~= texts(before).push(m@));
                assert(texts(ls@) =~= seq![self.rank_note@] + nv.take(i + 1));
            }
            i += 1;
        }
        proof {
            assert(nv.take(i as int) =~= nv);
        }
        let ghost head = texts(ls@);
        if self.no_match {
            ls.push("no matching skill".to_owned());
            proof {
                assert(texts(ls@) =~= head + seq!["no matching skill"@]);
            }
            return join(&ls, "\n");
        }
        let ghost hv = views(self.hits@);
        let ghost sv = texts(shown@);
        let mut k: usize = 0;
        proof {
            assert(texts(ls@) =~= head + hit_lines(hv, sv, 0));
        }
        while k < self.hits.len()
            invariant
                k <= self.hits@.len(),
                shown@.len() == self.hits@.len(),
                hv == views(self.hits@),
                sv == texts(shown@),
                texts(ls@) == head + hit_lines(hv, sv, k as int),
            decreases self.hits@.len() - k,
        {
            let ghost before = ls@;
            let h = &self.hits[k];
            let mut line = h.name.clone();
            line.append("  ");
            line.append(h.path.as_str());
            line.append("  (");
            line.append(shown[k].as_str());
            line.append(")");
            let d = h.description.clone();
            ls.push(line);
            ls.push(d);
            proof {
                assert(hv[k as int] == h@);
                assert(sv[k as int] == shown@[k as int]@);
                assert(texts(ls@) =~= texts(before).push(line@).push(d@));
                assert(texts(ls@) =~= head + hit_lines(hv, sv, k + 1));
            }
            k += 1;
        }
        join(&ls, "\n")
    }
}

/// A limit between 1 and 5.
pub open spec fn clamped(limit: int) -> int {
    if limit < 1 {
        1
    } else if limit > 5 {
        5
    } else {
        limit
    }
}

/// What is returned for a task, given what the library holds and what came of
/// asking the service about its skills.
pub open spec fn run_of(
    task: Seq<char>,
    limit: int,
    library: Result<(Seq<EntryView>, Seq<Seq<char>>), ErrorView>,
    outcome: Outcome,
) -> ResultView {
    match library {
        Err(e) => ResultView {
            rank_note: fell_back(crate::error::error_text(e)).note,
            notes: seq![crate::error::error_text(e)],
            hits: Seq::empty(),
            no_match: true,
        },
        Ok((entries, notes)) => if entries.len() == 0 {
            ResultView {
                rank_note: fell_back("empty library"@).note,
                notes,
                hits: Seq::empty(),
                no_match: true,
            }
        } else {
            let (status, hits) = ranking_of(task, entries, clamped(limit), outcome);
            ResultView { rank_note: status.note, notes, hits, no_match: hits.len() == 0 }
        },
    }
}

/// What a library, or the reason for not having one, says.
pub open spec fn library_view(r: Result<(Vec<SkillEntry>, Vec<String>), Error>) -> Result<
    (Seq<EntryView>, Seq<Seq<char>>),
    ErrorView,
> {
    match r {
        Ok((entries, notes)) => Ok((views(entries@), texts(notes@))),
        Err(e) => Err(e@),
    }
}

/// Rank skills for `task` and return up to `limit` hits (clamped to 1–5).
/// `outcome` is what came of asking the service about the skills of the
/// library; it is not looked at where the library has none.
pub fn run(
    task: &str,
    limit: usize,
    library: Result<(Vec<SkillEntry>, Vec<String>), Error>,
    outcome: Outcome,
) -> (r: SkillResult)
    requires
        library matches Ok((entries, notes)) && outcome matches Outcome::Answered { exists, scores }
            ==> entries@.len() == 0 || scores@.len() == entries@.len(),
    ensures
        r@ == run_of(task@, limit as int, library_view(library), outcome),
{
    let n: usize = if limit < 1 {
        1
    } else if limit > 5 {
        5
    } else {
        limit
    };
    match library {
        Err(e) => {
            let m = e.message();
            let mut notes: Vec<String> = Vec::new();
            let status = RankStatus::fallback(m.as_str());
            notes.push(m);
            let hits: Vec<SkillHit> = Vec::new();
            proof {
                assert(texts(notes@) =~= seq![m@]);
                assert(views(hits@) =~= Seq::<SkillHitView>::empty());
            }
            SkillResult { rank_note: status.note, notes, hits, no_match: true }
        },
        Ok((entries, notes)) => {
            if entries.len() == 0 {
                let status = RankStatus::fallback("empty library");
                let hits: Vec<SkillHit> = Vec::new();
                proof {
                    assert(views(hits@) =~= Seq::<SkillHitView>::empty());
                    assert(views(entries@).len() == 0);
                }
                return SkillResult { rank_note: status.note, notes, hits, no_match: true };
            }
            let (status, hits) = rank_entries(task, &entries, n, outcome);
            let no_match = hits.len() == 0;
            proof {
                assert(views(hits@).len() == hits@.len());
                assert(views(entries@).len() == entries@.len());
            }
            SkillResult { rank_note: status.note, notes, hits, no_match }
        },
    }
}

/// A result holds no more skills than asked for, and never more than five.
pub proof fn hits_within_limit(
    task: Seq<char>,
    limit: int,
    library: Result<(Seq<EntryView>, Seq<Seq<char>>), ErrorView>,
    outcome: Outcome,
)
    ensures
        run_of(task, limit, library, outcome).hits.len() <= clamped(limit) <= 5,
        run_of(task, limit, library, outcome).no_match <==> run_of(
            task,
            limit,
            library,
            outcome,
        ).hits.len() == 0,
{
}

/// No skill is returned unless the service is at least as sure as its floor
/// that one of them fits: a missing reading counts as no.
pub proof fn doubt_returns_nothing(entries: Seq<EntryView>, exists_: Option<u64>, scores: Seq<Option<u64>>, limit: int)
    requires
        exists_ is None || !at_least_half(exists_->0),
    ensures
        scored_hits(entries, exists_, scores, limit).len() == 0,
{
}

/// Every skill found by shared words shares one at least, and a fifth of the
/// task's words.
pub proof fn lexical_hits_share_enough(entries: Seq<EntryView>, overlaps: Seq<usize>, of: usize, limit: int, i: int)
    requires
        0 <= limit,
        0 <= i < lexical_hits(entries, overlaps, of, limit).len(),
    ensures
        lexical_hits(entries, overlaps, of, limit)[i].score matches SkillScore::Share {
            overlap,
            of: n,
        } && n == of && overlap >= 1 && 5 * overlap >= of,
{
    let s = sorted::<Weighed>(weighed_in_turn(entries, overlaps));
    let ok = |w: WeighedView| enough(w, of as int);
    s.lemma_filter_pred(ok, i);
}

/// A task without words that count, or one that shares none with any skill,
/// gets no skill by shared words.
pub proof fn no_shared_word_no_match(entries: Seq<EntryView>, overlaps: Seq<usize>, of: usize, limit: int)
    requires
        entries.len() <= usize::MAX,
        0 <= limit,
        of == 0 || (forall|i: int| 0 <= i < entries.len() ==> #[trigger] overlaps[i] == 0),
    ensures
        lexical_hits(entries, overlaps, of, limit).len() == 0,
{
    if of > 0 {
        let s = sorted::<Weighed>(weighed_in_turn(entries, overlaps));
        let ok = |w: WeighedView| enough(w, of as int);
        assert forall|i: int| 0 <= i < s.len() implies !ok(#[trigger] s[i]) by {
            lemma_weighed(entries, overlaps, i);
        }
        s.lemma_all_neg_filter_empty(ok);
    }
}

/// Every skill that is returned is one of the library: it has the name and the
/// path of an entry, and that entry's description as it is shown. Found by
/// shared words it says how many words of the task the entry shares; scored by
/// the service it has the score of the entry.
pub proof fn hits_are_skills_of_the_library(
    task: Seq<char>,
    entries: Seq<EntryView>,
    limit: int,
    outcome: Outcome,
    i: int,
)
    requires
        0 <= limit,
        entries.len() <= usize::MAX,
        outcome matches Outcome::Answered { exists, scores } ==> scores@.len() == entries.len(),
        0 <= i < ranking_of(task, entries, limit, outcome).1.len(),
    ensures
        exists|k: int|
            0 <= k < entries.len() && ({
                let h = ranking_of(task, entries, limit, outcome).1[i];
                let e = #[trigger] entries[k];
                &&& h.name == e.name && h.path == e.skill_path
                &&& h.description == capped(e.description)
                &&& match outcome {
                    Outcome::Failed(_) => h.score matches SkillScore::Share { overlap, of }
                        && overlap == tokens_of(task).intersect(
                        tokens_of(e.name + seq![' '] + e.description),
                    ).len() as usize && of == tokens_of(task).len() as usize,
                    Outcome::Answered { exists, scores } => scores@[k] matches Some(s) ==> h.score
                        == SkillScore::Noul(s),
                }
            }),
{
    let h = ranking_of(task, entries, limit, outcome).1[i];
    match outcome {
        Outcome::Failed(_) => {
            reveal_strlit(" ");
            let overlaps = overlaps_with(tokens_of(task), entries);
            let of = tokens_of(task).len() as usize;
            let s = sorted::<Weighed>(weighed_in_turn(entries, overlaps));
            let ok = |w: WeighedView| enough(w, of as int);
            let f = s.filter(ok);
            assert(f.contains(f[i]));
            s.lemma_filter_contains_rev(ok, f[i]);
            let j = choose|j: int| 0 <= j < s.len() && s[j] == f[i];
            lemma_weighed(entries, overlaps, j);
            let k = s[j].index as int;
            assert(" "@ =~= seq![' ']);
            assert(doc_of(entries[k]) == entries[k].name + seq![' '] + entries[k].description);
            assert(h.name == entries[k].name);
        },
        Outcome::Answered { exists, scores } => {
            let o = noul_order(scores@);
            let ok = |p: (usize, u64)| at_least_half(p.1);
            let f = o.filter(ok);
            assert(f.contains(f[i]));
            o.lemma_filter_contains_rev(ok, f[i]);
            let j = choose|j: int| 0 <= j < o.len() && o[j] == f[i];
            crate::jev::lemma_order_scores(scores@, j);
            let k = o[j].0 as int;
            assert(h.name == entries[k].name);
        },
    }
}

/// Skills come best first: by how many words they share, or by the score of
/// the service, which is a half or more for each.
pub proof fn skills_come_best_first(
    task: Seq<char>,
    entries: Seq<EntryView>,
    limit: int,
    outcome: Outcome,
    i: int,
    j: int,
)
    requires
        0 <= limit,
        0 <= i < j < ranking_of(task, entries, limit, outcome).1.len(),
    ensures
        ({
            let a = ranking_of(task, entries, limit, outcome).1[i].score;
            let b = ranking_of(task, entries, limit, outcome).1[j].score;
            match outcome {
                Outcome::Failed(_) => a->overlap >= b->overlap,
                Outcome::Answered { exists, scores } => score_key(a->Noul_0) >= score_key(
                    b->Noul_0,
                ) && score_key(b->Noul_0) >= score_key(0x3fe0_0000_0000_0000),
            }
        }),
{
    match outcome {
        Outcome::Failed(_) => {
            let overlaps = overlaps_with(tokens_of(task), entries);
            let of = tokens_of(task).len() as usize;
            let all = weighed_in_turn(entries, overlaps);
            let s = sorted::<Weighed>(all);
            let ok = |w: WeighedView| enough(w, of as int);
            let r = |x: WeighedView, y: WeighedView| x.overlap >= y.overlap;
            crate::order::sort_orders::<Weighed>(all);
            assert forall|p: int, q: int| 0 <= p < q < s.len() implies r(
                #[trigger] s[p],
                #[trigger] s[q],
            ) by {
                assert(!<Weighed as Ranked>::precedes(s[q], s[p]));
            }
            crate::order::lemma_filter_ordered(s, ok, r);
            let f = s.filter(ok);
            assert(r(f[i], f[j]));
        },
        Outcome::Answered { exists, scores } => {
            let o = noul_order(scores@);
            let ok = |p: (usize, u64)| at_least_half(p.1);
            let r = |x: (usize, u64), y: (usize, u64)| score_key(x.1) >= score_key(y.1);
            assert forall|p: int, q: int| 0 <= p < q < o.len() implies r(
                #[trigger] o[p],
                #[trigger] o[q],
            ) by {
                crate::jev::scored_hits_come_best_first(scores@, p, q);
            }
            crate::order::lemma_filter_ordered(o, ok, r);
            let f = o.filter(ok);
            assert(r(f[i], f[j]));
            o.lemma_filter_pred(ok, j);
        },
    }
}

/// No folder is lost: of the first folders each that makes a skill is an entry
/// with the path of its file, each that fails to is a note that names it, and
/// there are no others.
pub proof fn folders_make_skills_or_notes(fs: Seq<FolderView>, n: int, f: int)
    requires
        0 <= f < n <= fs.len(),
    ensures
        entry_of(fs[f]) matches Ok(Some(e)) ==> scanned(fs, n).0.contains(e) && (
        fs[f].skill matches Some((path, _)) && e.skill_path == path),
        entry_of(fs[f]) matches Err(m) ==> scanned(fs, n).1.contains(m),
        fs[f].skill is None ==> entry_of(fs[f]) == Ok::<Option<EntryView>, Seq<char>>(None),
        scanned(fs, n).0.len() + scanned(fs, n).1.len() <= n,
    decreases n,
{
    let (entries, notes) = scanned(fs, n);
    lemma_scanned_len(fs, n);
    if f < n - 1 {
        folders_make_skills_or_notes(fs, n - 1, f);
        let (e0, n0) = scanned(fs, n - 1);
        if let Ok(Some(e)) = entry_of(fs[f]) {
            let k = choose|k: int| 0 <= k < e0.len() && e0[k] == e;
            assert(entries[k] == e);
        }
        if let Err(m) = entry_of(fs[f]) {
            let k = choose|k: int| 0 <= k < n0.len() && n0[k] == m;
            assert(notes[k] == m);
        }
    } else {
        if let Ok(Some(e)) = entry_of(fs[f]) {
            assert(entries[entries.len() - 1] == e);
        }
        if let Err(m) = entry_of(fs[f]) {
            assert(notes[notes.len() - 1] == m);
        }
    }
}

proof fn lemma_scanned_len(fs: Seq<FolderView>, n: int)
    requires
        0 <= n,
    ensures
        scanned(fs, n).0.len() + scanned(fs, n).1.len() <= n,
    decreases n,
{
    if n > 0 {
        lemma_scanned_len(fs, n - 1);
    }
}

/// A result that found skills shows each of them: a line with its name, its
/// path and its score, and a line with its description.
pub proof fn results_show_every_skill(hits: Seq<SkillHitView>, shown: Seq<Seq<char>>, n: int, i: int)
    requires
        0 <= i < n <= hits.len(),
    ensures
        hit_lines(hits, shown, n).len() == 2 * n,
        hit_lines(hits, shown, n)[2 * i] == hits[i].name + "  "@ + hits[i].path + "  ("@ + shown[i]
            + ")"@,
        hit_lines(hits, shown, n)[2 * i + 1] == hits[i].description,
    decreases n,
{
    if n > 1 {
        if i < n - 1 {
            results_show_every_skill(hits, shown, n - 1, i);
        } else {
            results_show_every_skill(hits, shown, n - 1, 0);
        }
    } else {
        assert(hit_lines(hits, shown, 0).len() == 0);
    }
}

/// The lines of a result: who ranked it first, then each note, then its skills
/// or a line that there is none.
pub proof fn results_say_who_ranked_them(r: ResultView, shown: Seq<Seq<char>>, k: int)
    ensures
        result_lines(r, shown)[0] == r.rank_note,
        0 <= k < r.notes.len() ==> result_lines(r, shown)[k + 1] == r.notes[k],
        r.no_match ==> result_lines(r, shown).last() == "no matching skill"@,
{
}

/// No skill that shares enough words with a task is lost within the limit: one
/// that shares a word, and a fifth of the words of the task, is found, or as
/// many skills as may be were.
pub proof fn no_sharing_skill_is_lost(
    entries: Seq<EntryView>,
    overlaps: Seq<usize>,
    of: usize,
    limit: int,
    k: int,
)
    requires
        0 <= k < entries.len() <= usize::MAX,
        0 <= limit,
        overlaps[k] >= 1,
        5 * overlaps[k] >= of,
        of >= 1,
    ensures
        lexical_hits(entries, overlaps, of, limit).len() == limit || exists|i: int|
            0 <= i < lexical_hits(entries, overlaps, of, limit).len() && ({
                let h = #[trigger] lexical_hits(entries, overlaps, of, limit)[i];
                h.name == entries[k].name && h.path == entries[k].skill_path && h.score
                    == (SkillScore::Share { overlap: overlaps[k], of })
            }),
{
    let a = weighed_in_turn(entries, overlaps);
    let s = sorted::<Weighed>(a);
    let ok = |w: WeighedView| enough(w, of as int);
    crate::order::sort_orders::<Weighed>(a);
    a.to_multiset_ensures();
    s.to_multiset_ensures();
    assert(a.contains(a[k]));
    assert(s.to_multiset().count(a[k]) > 0);
    let j = s.index_of(a[k]);
    crate::order::lemma_filter_keeps(s, ok);
    assert(ok(s[j]));
    let f = s.filter(ok);
    let i = f.index_of(s[j]);
    let hits = lexical_hits(entries, overlaps, of, limit);
    if hits.len() != limit {
        assert(hits.len() == f.len());
        assert(hits[i].name == entries[k].name);
    }
}

/// No skill that the service is sure of is lost within the limit: where it is
/// sure that there is one, each that it scores a half or more is found, or as
/// many skills as may be were.
pub proof fn no_sure_skill_is_lost(
    entries: Seq<EntryView>,
    exists_: Option<u64>,
    scores: Seq<Option<u64>>,
    limit: int,
    k: int,
)
    requires
        0 <= k < entries.len() <= usize::MAX,
        scores.len() == entries.len(),
        0 <= limit,
        exists_ is Some && at_least_half(exists_->0),
        scores[k] is Some && at_least_half(scores[k]->0),
    ensures
        scored_hits(entries, exists_, scores, limit).len() == limit || exists|i: int|
            0 <= i < scored_hits(entries, exists_, scores, limit).len() && ({
                let h = #[trigger] scored_hits(entries, exists_, scores, limit)[i];
                h.name == entries[k].name && h.path == entries[k].skill_path && h.score
                    == SkillScore::Noul(scores[k]->0)
            }),
{
    let a = crate::jev::scored_in_turn(scores);
    let o = noul_order(scores);
    let ok = |p: (usize, u64)| at_least_half(p.1);
    crate::order::sort_orders::<crate::jev::Scored>(a);
    a.to_multiset_ensures();
    o.to_multiset_ensures();
    assert(a[k] == (k as usize, scores[k]->0));
    assert(a.contains(a[k]));
    assert(o.to_multiset().count(a[k]) > 0);
    let j = o.index_of(a[k]);
    crate::order::lemma_filter_keeps(o, ok);
    assert(ok(o[j]));
    let f = o.filter(ok);
    let i = f.index_of(o[j]);
    let hits = scored_hits(entries, exists_, scores, limit);
    if hits.len() != limit {
        assert(hits.len() == f.len());
        assert(hits[i].name == entries[k].name);
    }
}

/// A number is a half or more where its bit pattern lies between that of a half
/// and that of infinity.
pub proof fn halves_are_bounds(bits: u64)
    ensures
        at_least_half(bits) <==> 0x3fe0_0000_0000_0000 <= bits <= 0x7ff0_0000_0000_0000,
{
}

/// The words of a text are its longest runs of marked characters that are
/// longer than a byte and no stopwords: each of them, and no others.
pub proof fn words_are_the_longest_runs(low: Seq<char>, marks: Seq<bool>, w: Seq<char>)
    requires
        marks.len() == low.len(),
    ensures
        words_in(low, marks).contains(w) <==> is_longest_run(w, low, marks) && byte_len(w) > 1
            && !stopwords().contains(w),
{
    let rs = runs(low, marks);
    let good = |t: Seq<char>| counts(t);
    let f = rs.filter(good);
    runs_are_the_longest(low, marks);
    if words_in(low, marks).contains(w) {
        assert(f.contains(w));
        let i = f.index_of(w);
        rs.lemma_filter_pred(good, i);
        rs.lemma_filter_contains_rev(good, w);
        let j = rs.index_of(w);
        assert(is_longest_run(rs[j], low, marks));
    }
    if is_longest_run(w, low, marks) && counts(w) {
        let (a, b) = choose|a: int, b: int| #[trigger]
            longest_run(marks, a, b) && w == low.subrange(a, b);
        assert(rs.contains(low.subrange(a, b)));
        let j = rs.index_of(w);
        crate::order::lemma_filter_keeps(rs, good);
        assert(good(rs[j]));
    }
}

/// A library that is asked for wins over one that the environment names, and
/// that over the one below the home directory; a blank name counts as none.
pub proof fn libraries_are_looked_for_in_turn(dir: Seq<char>, env: Seq<char>, home: Seq<char>)
    requires
        home.len() > 0,
        home.last() != '/',
    ensures
        library_dir(Some(dir), Some(env), Some(home)) == dir,
        library_dir(Some(dir), None, None) == dir,
        trimmed(env).len() > 0 ==> library_dir(None, Some(env), Some(home)) == trimmed(env),
        trimmed(env).len() == 0 ==> library_dir(None, Some(env), Some(home)) == library_dir(
            None,
            None,
            Some(home),
        ),
        library_dir(None, None, Some(home)) == home + "/"@ + DEFAULT_SKILLS_REL@,
{
    reveal_strlit("/");
    reveal_strlit(".local/share/agent-skills");
    assert(library_dir(None, None, Some(home)) =~= home + "/"@ + DEFAULT_SKILLS_REL@);
}

/// A library that is not there holds no skills and says so; one that is no
/// directory is refused; of any other every folder is read, by name.
pub proof fn libraries_are_read_by_name(
    dir: Seq<char>,
    present: bool,
    is_dir: bool,
    folders: Seq<FolderView>,
    i: int,
    j: int,
)
    ensures
        library_of(dir, present, is_dir, folders) is Err <==> present && !is_dir,
        !present ==> library_of(dir, present, is_dir, folders)->Ok_0.0.len() == 0 && library_of(
            dir,
            present,
            is_dir,
            folders,
        )->Ok_0.1.len() == 1 && dir.is_suffix_of(
            library_of(dir, present, is_dir, folders)->Ok_0.1[0],
        ),
        present && is_dir ==> library_of(dir, present, is_dir, folders)->Ok_0 == scanned(
            sorted::<Folder>(folders),
            folders.len() as int,
        ),
        sorted::<Folder>(folders).to_multiset() == folders.to_multiset(),
        0 <= i < j < folders.len() ==> !text_precedes(
            sorted::<Folder>(folders)[j].name,
            sorted::<Folder>(folders)[i].name,
        ),
{
    let s = sorted::<Folder>(folders);
    crate::order::sort_orders::<Folder>(folders);
    s.to_multiset_ensures();
    folders.to_multiset_ensures();
    if 0 <= i < j < folders.len() {
        assert(!<Folder as Ranked>::precedes(s[j], s[i]));
    }
    let m = "skill library not found: "@ + dir;
    assert(dir =~= m.subrange(m.len() - dir.len(), m.len() as int));
}

/// A note on a folder names the folder and says why it is left out; a folder
/// whose file names a skill and describes it makes that skill.
pub proof fn notes_name_the_folder(f: FolderView, path: Seq<char>, bytes: Seq<u8>, why: Seq<char>)
    ensures
        f.skill == Some((path, Err::<Seq<u8>, _>(why))) ==> entry_of(f) == Err::<
            Option<EntryView>,
            _,
        >("skipped "@ + f.name + "/SKILL.md: "@ + why),
        f.skill == Some((path, Ok::<_, Seq<char>>(bytes))) && bytes.len() <= SKILL_MD_READ_CAP
            ==> match parsed(utf8_lossy(bytes), f.name) {
            Ok(Some((name, description))) => entry_of(f) matches Ok(Some(e)) && e.name == name
                && e.description == description && e.skill_path == path,
            Ok(None) => entry_of(f) is Err,
            Err(e) => entry_of(f) == Err::<Option<EntryView>, _>(
                "skipped "@ + f.name + "/SKILL.md: "@ + e,
            ),
        },
{
}

/// A number of skills between one and five is the one that was asked for; a
/// result passes on what the library says, and without a skill to rank holds
/// none.
pub proof fn results_pass_on_what_the_library_says(
    task: Seq<char>,
    limit: int,
    entries: Seq<EntryView>,
    notes: Seq<Seq<char>>,
    e: ErrorView,
    outcome: Outcome,
)
    ensures
        1 <= limit <= 5 ==> clamped(limit) == limit,
        limit < 1 ==> clamped(limit) == 1,
        limit > 5 ==> clamped(limit) == 5,
        run_of(task, limit, Ok((entries, notes)), outcome).notes == notes,
        entries.len() == 0 ==> run_of(task, limit, Ok((entries, notes)), outcome).no_match,
        entries.len() > 0 ==> run_of(task, limit, Ok((entries, notes)), outcome).hits == ranking_of(
            task,
            entries,
            clamped(limit),
            outcome,
        ).1,
        run_of(task, limit, Err(e), outcome).no_match,
        run_of(task, limit, Err(e), outcome).notes == seq![crate::error::error_text(e)],
        outcome matches Outcome::Failed(reason) ==> (entries.len() > 0 ==> run_of(
            task,
            limit,
            Ok((entries, notes)),
            outcome,
        ).rank_note == "rank: fallback ("@ + reason@ + ")"@),
{
}

/// Of skills that share as many words with a task, the one whose name comes
/// first in the order of texts comes first.
pub proof fn equal_skills_come_by_name(
    entries: Seq<EntryView>,
    overlaps: Seq<usize>,
    of: usize,
    limit: int,
    i: int,
    j: int,
)
    requires
        0 <= limit,
        entries.len() <= usize::MAX,
        0 <= i < j < lexical_hits(entries, overlaps, of, limit).len(),
    ensures
        ({
            let a = lexical_hits(entries, overlaps, of, limit)[i];
            let b = lexical_hits(entries, overlaps, of, limit)[j];
            a.score == b.score ==> !text_precedes(b.name, a.name)
        }),
{
    let all = weighed_in_turn(entries, overlaps);
    let s = sorted::<Weighed>(all);
    let ok = |w: WeighedView| enough(w, of as int);
    let r = |x: WeighedView, y: WeighedView|
        x.overlap == y.overlap ==> !text_precedes(y.name, x.name);
    let named = |w: WeighedView| w.name == entries[w.index as int].name;
    crate::order::sort_orders::<Weighed>(all);
    all.to_multiset_ensures();
    s.to_multiset_ensures();
    assert forall|p: int, q: int| 0 <= p < q < s.len() implies r(
        #[trigger] s[p],
        #[trigger] s[q],
    ) by {
        assert(!<Weighed as Ranked>::precedes(s[q], s[p]));
    }
    crate::order::lemma_filter_ordered(s, ok, r);
    crate::order::lemma_filter_keeps(s, ok);
    let f = s.filter(ok);
    assert(r(f[i], f[j]));
    assert forall|k: int| 0 <= k < f.len() implies #[trigger] named(f[k]) by {
        assert(s.contains(f[k]));
        assert(all.to_multiset().count(f[k]) > 0);
        let m = all.index_of(f[k]);
        assert(all[m] == f[k]);
    }
    assert(named(f[i]) && named(f[j]));
}

} // verus!
