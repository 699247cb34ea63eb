//! The data directory: where decks and logs live, how they are named, and
//! how a deck and its log become what every command sees. Reading and
//! listing files is the caller's; this module decides from what was read.

use vstd::prelude::*;

use crate::deck::{parse_deck, Deck, Warning, WarningV};
use crate::error::Error;
use crate::history::{parse_log, spec_parse_log};
use crate::ledger::{histories, rows_view, spec_replay, Ledger, ReviewEvent};
use crate::strs::{chars_of, contains, contains_exec, owned, push_str, starts_with, str_eq, string_of};
use crate::text::{join, join_strings, lowercase, spec_lowercase, split_on, split_on_exec, strings_view};
use crate::assoc::CardKey;

verus! {

pub const DEFAULT_DIR_NAME: &'static str = "reword";

pub const ENV_DIR: &'static str = "REWORD_DIR";

#[derive(Clone, Debug)]
pub struct Store {
    pub root: String,
}

/// `PathBuf::push` on Unix: an absolute part replaces the path; otherwise it
/// is appended, with a separator unless the path is empty or ends in one.
pub open spec fn join_path(a: Seq<char>, b: Seq<char>) -> Seq<char> {
    if b.len() > 0 && b[0] == '/' {
        b
    } else if a.len() == 0 {
        b
    } else if a.last() == '/' {
        a + b
    } else {
        a + seq!['/'] + b
    }
}

fn join_path_exec(a: &str, b: &str) -> (r: String)
    ensures
        r@ == join_path(a@, b@),
{
    let av = chars_of(a);
    let bv = chars_of(b);
    if bv.len() > 0 && bv[0] == '/' {
        return owned(b);
    }
    if av.len() == 0 {
        return owned(b);
    }
    let mut s = owned(a);
    if av[av.len() - 1] != '/' {
        crate::strs::push_char(&mut s, '/');
    }
    push_str(&mut s, b);
    s
}

pub open spec fn md_file(name: Seq<char>) -> Seq<char> {
    name + ".md"@
}

pub open spec fn log_file(name: Seq<char>) -> Seq<char> {
    name + ".log"@
}

pub open spec fn spec_decks_dir(root: Seq<char>) -> Seq<char> {
    join_path(root, "decks"@)
}

/// `decks/NAME.md`, as a deck file is named in messages.
pub open spec fn spec_deck_label(name: Seq<char>) -> Seq<char> {
    "decks/"@ + md_file(name)
}

/// `decks/NAME.log`, as a log file is named in messages.
pub open spec fn spec_log_label(name: Seq<char>) -> Seq<char> {
    "decks/"@ + log_file(name)
}

/// A path for messages: the home directory shown as `~`.
pub open spec fn spec_display_path(path: Seq<char>, home: Option<Seq<char>>) -> Seq<char> {
    match home {
        Some(h) => if h.len() > 0 && path == h {
            "~"@
        } else if h.len() > 0 && h.last() != '/' && starts_with(path, h + seq!['/'])
            && path.len() > h.len() + 1 {
            "~/"@ + path.skip(h.len() + 1 as int)
        } else {
            path
        },
        None => path,
    }
}

/// Shows a path with the home directory (when the caller knows it) as `~`.
pub fn display_path(path: &str, home: Option<&str>) -> (r: String)
    ensures
        r@ == spec_display_path(path@, match home {
            Some(h) => Some(h@),
            None => None,
        }),
{
    match home {
        None => owned(path),
        Some(h) => {
            let hv = chars_of(h);
            let pv = chars_of(path);
            if hv.len() > 0 && str_eq(path, h) {
                return owned("~");
            }
            if hv.len() > 0 && hv[hv.len() - 1] != '/' && pv.len() > hv.len() && pv.len() - hv.len() > 1 {
                let mut pre = hv.clone();
                pre.push('/');
                assert(pre@ == h@ + seq!['/']);
                if crate::strs::starts_with_exec(pv.as_slice(), pre.as_slice()) {
                    let rest = crate::strs::slice_chars(pv.as_slice(), hv.len() + 1, pv.len());
                    let mut s = owned("~/");
                    crate::strs::push_chars(&mut s, rest.as_slice());
                    proof {
                        reveal_strlit("~/");
                        assert(rest@ =~= path@.skip(h@.len() + 1 as int));
                    }
                    return s;
                }
            }
            owned(path)
        },
    }
}

/// The last normal component of a path split at `/`: empty and `.`
/// components are skipped; `..` or nothing left means there is none.
pub open spec fn last_name(parts: Seq<Seq<char>>) -> Option<Seq<char>>
    decreases parts.len(),
{
    if parts.len() == 0 {
        None
    } else if parts.last().len() == 0 || parts.last() == "."@ {
        last_name(parts.drop_last())
    } else if parts.last() == ".."@ {
        None
    } else {
        Some(parts.last())
    }
}

/// A file name with extension `md`: something before `.md`.
pub open spec fn is_md(name: Seq<char>) -> bool {
    name.len() > 3 && name.skip(name.len() - 3) == ".md"@
}

/// The deck a user-supplied argument names: `cantonese`, `cantonese.md`,
/// `decks/cantonese.md` all name `cantonese`.
pub open spec fn spec_deck_name_from_arg(arg: Seq<char>) -> Seq<char> {
    match last_name(split_on(arg, seq!['/'])) {
        None => arg,
        Some(n) => if is_md(n) {
            n.take(n.len() - 3)
        } else {
            n
        },
    }
}

/// Turns a user-supplied deck argument (`cantonese`, `cantonese.md`,
/// `decks/cantonese.md`) into a deck name.
pub fn deck_name_from_arg(arg: &str) -> (r: String)
    ensures
        r@ == spec_deck_name_from_arg(arg@),
{
    let v = chars_of(arg);
    let sep: Vec<char> = vec!['/'];
    assert(sep@ == seq!['/']);
    let parts = split_on_exec(v.as_slice(), sep.as_slice());
    let ghost pv = parts@.map_values(|w: Vec<char>| w@);
    assert(pv == split_on(arg@, seq!['/']));
    let mut n: usize = parts.len();
    assert(pv.take(n as int) =~= pv);
    let dot: Vec<char> = vec!['.'];
    let dots: Vec<char> = vec!['.', '.'];
    assert(dot@ == "."@) by {
        reveal_strlit(".");
    }
    assert(dots@ == ".."@) by {
        reveal_strlit("..");
    }
    while n > 0
        invariant
            n <= parts@.len(),
            pv == parts@.map_values(|w: Vec<char>| w@),
            pv == split_on(arg@, seq!['/']),
            dot@ == "."@,
            dots@ == ".."@,
            last_name(pv.take(n as int)) == last_name(pv),
        decreases n,
    {
        let p = &parts[n - 1];
        proof {
            assert(pv.take(n as int).last() == p@);
            assert(pv.take(n as int).drop_last() =~= pv.take(n - 1));
        }
        if p.len() == 0 || crate::strs::chars_eq(p.as_slice(), dot.as_slice()) {
            n = n - 1;
        } else if crate::strs::chars_eq(p.as_slice(), dots.as_slice()) {
            return owned(arg);
        } else {
            let pl = p.len();
            if pl > 3 && p[pl - 3] == '.' && p[pl - 2] == 'm' && p[pl - 1] == 'd' {
                proof {
                    reveal_strlit(".md");
                    assert(p@.skip(pl - 3) =~= ".md"@);
                }
                let stem = crate::strs::slice_chars(p.as_slice(), 0, pl - 3);
                assert(stem@ =~= p@.take(pl - 3));
                return string_of(stem.as_slice());
            }
            proof {
                reveal_strlit(".md");
                if p@.len() > 3 && p@.skip(pl - 3) == ".md"@ {
                    assert(p@.skip(pl - 3)[0] == '.');
                    assert(p@.skip(pl - 3)[1] == 'm');
                    assert(p@.skip(pl - 3)[2] == 'd');
                }
            }
            return string_of(p.as_slice());
        }
    }
    assert(pv.take(0) =~= Seq::<Seq<char>>::empty());
    owned(arg)
}

/// Why a new deck name is refused, if it is.
pub open spec fn spec_deck_name_problem(name: Seq<char>) -> Option<Seq<char>> {
    if name.len() == 0 {
        Some("deck name is empty"@)
    } else if starts_with(name, "."@) || contains(name, "/"@) || contains(name, "\\"@) || contains(
        name,
        seq!['\0'],
    ) {
        Some("\""@ + name + "\" is not a valid deck name (no slashes, no leading dot)"@)
    } else {
        None
    }
}

/// The deck names that look like `name`: one contains the other, ignoring
/// case.
pub open spec fn close_to(d: Seq<char>, name: Seq<char>) -> bool {
    contains(spec_lowercase(d), spec_lowercase(name)) || contains(spec_lowercase(name), spec_lowercase(d))
}

/// The first `n` decks close to `name`, in order.
pub open spec fn close_decks(decks: Seq<Seq<char>>, name: Seq<char>, n: nat) -> Seq<Seq<char>>
    decreases decks.len(),
{
    if decks.len() == 0 || n == 0 {
        Seq::empty()
    } else if close_to(decks[0], name) {
        seq![decks[0]] + close_decks(decks.drop_first(), name, (n - 1) as nat)
    } else {
        close_decks(decks.drop_first(), name, n)
    }
}

/// What to suggest when no deck has the name the user gave.
pub open spec fn spec_unknown_deck_hint(name: Seq<char>, decks: Seq<Seq<char>>) -> Seq<char> {
    if decks.len() == 0 {
        "There are no decks yet. Create one with `reword add "@ + name + " FRONT BACK`."@
    } else {
        let close = close_decks(decks, name, 3);
        if close.len() == 0 {
            "Decks: "@ + join(decks, ", "@)
        } else {
            "Did you mean "@ + join(close, " or "@) + "? Decks: "@ + join(decks, ", "@)
        }
    }
}

/// The decks close to `name`, at most three, in order.
fn close_decks_exec(decks: &Vec<String>, name: &str) -> (r: Vec<String>)
    ensures
        strings_view(r@) == close_decks(strings_view(decks@), name@, 3),
{
    let lname = lowercase(name);
    let ghost dv = strings_view(decks@);
    let mut out: Vec<String> = Vec::new();
    let mut i: usize = 0;
    let mut left: usize = 3;
    proof {
        assert(dv.skip(0) =~= dv);
    }
    while i < decks.len() && left > 0
        invariant
            i <= decks@.len(),
            left <= 3,
            dv == strings_view(decks@),
            lname@ == spec_lowercase(name@),
            strings_view(out@) + close_decks(dv.skip(i as int), name@, left as nat) == close_decks(
                dv,
                name@,
                3,
            ),
        decreases decks@.len() - i,
    {
        let d = decks[i].as_str();
        assert(dv.skip(i as int)[0] == d@);
        assert(dv.skip(i as int).drop_first() =~= dv.skip(i + 1));
        let ld = lowercase(d);
        let lv = chars_of(ld.as_str());
        let nv = chars_of(lname.as_str());
        if contains_exec(lv.as_slice(), nv.as_slice()) || contains_exec(nv.as_slice(), lv.as_slice()) {
            let ghost before = strings_view(out@);
            out.push(owned(d));
            assert(strings_view(out@) =~= before + seq![d@]);
            left = left - 1;
        }
        i = i + 1;
    }
    proof {
        if i >= decks@.len() {
            assert(dv.skip(i as int).len() == 0);
        }
        assert(close_decks(dv.skip(i as int), name@, left as nat) =~= Seq::<Seq<char>>::empty());
        assert(strings_view(out@) + Seq::<Seq<char>>::empty() =~= strings_view(out@));
    }
    out
}

/// What to suggest when no deck has the name the user gave.
pub fn unknown_deck_hint(name: &str, decks: &Vec<String>) -> (r: String)
    ensures
        r@ == spec_unknown_deck_hint(name@, strings_view(decks@)),
{
    if decks.len() == 0 {
        let mut s = owned("There are no decks yet. Create one with `reword add ");
        push_str(&mut s, name);
        push_str(&mut s, " FRONT BACK`.");
        return s;
    }
    let close = close_decks_exec(decks, name);
    let all = join_strings(decks, ", ");
    if close.len() == 0 {
        let mut s = owned("Decks: ");
        push_str(&mut s, all.as_str());
        s
    } else {
        let mut s = owned("Did you mean ");
        let c = join_strings(&close, " or ");
        push_str(&mut s, c.as_str());
        push_str(&mut s, "? Decks: ");
        push_str(&mut s, all.as_str());
        s
    }
}

/// A deck file with its replayed log, as every command sees it.
#[derive(Debug)]
pub struct LoadedDeck {
    pub deck: Deck,
    pub ledger: Ledger,
    pub warnings: Vec<Warning>,
}

impl LoadedDeck {
    pub fn name(&self) -> (r: &str)
        ensures
            r@ == self.deck.name@,
    {
        self.deck.name.as_str()
    }
}

impl Store {
    pub fn decks_dir(&self) -> (r: String)
        ensures
            r@ == spec_decks_dir(self.root@),
    {
        join_path_exec(self.root.as_str(), "decks")
    }

    pub fn config_path(&self) -> (r: String)
        ensures
            r@ == join_path(self.root@, "config.toml"@),
    {
        join_path_exec(self.root.as_str(), "config.toml")
    }

    pub fn params_path(&self) -> (r: String)
        ensures
            r@ == join_path(self.root@, "params.toml"@),
    {
        join_path_exec(self.root.as_str(), "params.toml")
    }

    pub fn deck_path(&self, name: &str) -> (r: String)
        ensures
            r@ == join_path(spec_decks_dir(self.root@), md_file(name@)),
    {
        let dir = self.decks_dir();
        let mut f = owned(name);
        push_str(&mut f, ".md");
        join_path_exec(dir.as_str(), f.as_str())
    }

    pub fn log_path(&self, name: &str) -> (r: String)
        ensures
            r@ == join_path(spec_decks_dir(self.root@), log_file(name@)),
    {
        let dir = self.decks_dir();
        let mut f = owned(name);
        push_str(&mut f, ".log");
        join_path_exec(dir.as_str(), f.as_str())
    }

    pub fn deck_label(&self, name: &str) -> (r: String)
        ensures
            r@ == spec_deck_label(name@),
    {
        let mut s = owned("decks/");
        push_str(&mut s, name);
        push_str(&mut s, ".md");
        s
    }

    pub fn log_label(&self, name: &str) -> (r: String)
        ensures
            r@ == spec_log_label(name@),
    {
        let mut s = owned("decks/");
        push_str(&mut s, name);
        push_str(&mut s, ".log");
        s
    }

    /// Root with `~` for the home directory, for messages.
    pub fn display(&self, home: Option<&str>) -> (r: String)
        ensures
            r@ == spec_display_path(self.root@, match home {
                Some(h) => Some(h@),
                None => None,
            }),
    {
        display_path(self.root.as_str(), home)
    }

    /// Fails, with what to do, when the data directory does not exist.
    /// `exists` is whether `decks_dir()` is a directory.
    pub fn require(&self, exists: bool, home: Option<&str>) -> (r: Result<(), Error>)
        ensures
            r is Ok <==> exists,
            r matches Err(e) ==> (e.message@ == "no data directory at "@ + spec_display_path(
                self.root@,
                match home {
                    Some(h) => Some(h@),
                    None => None,
                },
            ) && (e.hint matches Some(h) && h@
                == "Run `reword init` to create it, or pass --dir / set $REWORD_DIR."@)),
    {
        if exists {
            Ok(())
        } else {
            let mut m = owned("no data directory at ");
            let d = self.display(home);
            push_str(&mut m, d.as_str());
            Err(Error::new(m).hint(owned("Run `reword init` to create it, or pass --dir / set $REWORD_DIR.")))
        }
    }

    /// The deck an argument names. `exists` is whether the deck file of
    /// `deck_name_from_arg(arg)` is there; `decks` lists the decks there are.
    pub fn resolve_deck(&self, arg: &str, exists: bool, decks: &Vec<String>) -> (r: Result<String, Error>)
        ensures
            exists ==> (r matches Ok(n) && n@ == spec_deck_name_from_arg(arg@)),
            !exists ==> (r matches Err(e) && e.message@ == "no deck named \""@
                + spec_deck_name_from_arg(arg@) + "\""@ && (e.hint matches Some(h) && h@
                == spec_unknown_deck_hint(spec_deck_name_from_arg(arg@), strings_view(decks@)))),
    {
        let name = deck_name_from_arg(arg);
        if exists {
            return Ok(name);
        }
        let hint = unknown_deck_hint(name.as_str(), decks);
        let mut m = owned("no deck named \"");
        push_str(&mut m, name.as_str());
        push_str(&mut m, "\"");
        Err(Error::new(m).hint(hint))
    }

    /// Refuses names that cannot be a deck file of their own.
    pub fn validate_new_deck_name(name: &str) -> (r: Result<(), Error>)
        ensures
            match spec_deck_name_problem(name@) {
                None => r is Ok,
                Some(m) => r matches Err(e) && e.message@ == m,
            },
    {
        let v = chars_of(name);
        if v.len() == 0 {
            return Err(Error::new(owned("deck name is empty")));
        }
        let slash: Vec<char> = vec!['/'];
        let back: Vec<char> = vec!['\\'];
        let nul: Vec<char> = vec!['\0'];
        proof {
            reveal_strlit(".");
            reveal_strlit("/");
            reveal_strlit("\\");
            assert(slash@ == "/"@);
            assert(back@ == "\\"@);
            assert(nul@ == seq!['\0']);
        }
        let leading_dot = v[0] == '.';
        proof {
            assert(starts_with(name@, "."@) == (name@[0] == '.')) by {
                if name@[0] == '.' {
                    assert(name@.take(1) =~= "."@);
                } else {
                    assert(name@.take(1)[0] != "."@[0]);
                }
            }
        }
        if leading_dot || contains_exec(v.as_slice(), slash.as_slice()) || contains_exec(
            v.as_slice(),
            back.as_slice(),
        ) || contains_exec(v.as_slice(), nul.as_slice()) {
            let mut m = owned("\"");
            push_str(&mut m, name);
            push_str(&mut m, "\" is not a valid deck name (no slashes, no leading dot)");
            return Err(Error::new(m));
        }
        Ok(())
    }

    /// A deck parsed from its file's text.
    pub fn load_deck(&self, name: &str, text: &str) -> (d: Deck)
        requires
            text@.len() < usize::MAX,
        ensures
            d.name@ == name@,
            d.cards@.map_values(|c: crate::deck::Card| c@) == parse_deck(text@, spec_deck_label(name@)).cards,
            d.warnings@.map_values(|w: Warning| w@) == parse_deck(text@, spec_deck_label(name@)).warnings,
    {
        let label = self.deck_label(name);
        Deck::parse(name, label.as_str(), text)
    }

    /// A deck plus its replayed history, from the texts of its deck file
    /// and its log (empty when there is no log). Warnings of the deck come
    /// first, then those of the log.
    pub fn load(&self, name: &str, deck_text: &str, log_text: &str) -> (ld: LoadedDeck)
        requires
            deck_text@.len() < usize::MAX,
            log_text@.len() < usize::MAX,
        ensures
            ld.deck.name@ == name@,
            ld.deck.cards@.map_values(|c: crate::deck::Card| c@) == parse_deck(
                deck_text@,
                spec_deck_label(name@),
            ).cards,
            ld.ledger.wf(),
            ld.ledger@ == histories(spec_replay(spec_parse_log(log_text@, spec_log_label(name@)).0).entries),
            ld.ledger.last_activity == spec_replay(spec_parse_log(log_text@, spec_log_label(name@)).0).last,
            ld.warnings@.map_values(|w: Warning| w@) == parse_deck(
                deck_text@,
                spec_deck_label(name@),
            ).warnings + spec_parse_log(log_text@, spec_log_label(name@)).1,
    {
        let deck = self.load_deck(name, deck_text);
        let label = self.log_label(name);
        let (rows, log_warnings) = parse_log(log_text, label.as_str());
        assert(rows_view(rows@) == rows@.map_values(|x: crate::history::Row| x@));
        let ledger = Ledger::replay(rows.as_slice());
        let mut warnings: Vec<Warning> = Vec::new();
        let mut i: usize = 0;
        while i < deck.warnings.len()
            invariant
                i <= deck.warnings@.len(),
                warnings@.map_values(|w: Warning| w@) == deck.warnings@.map_values(|w: Warning| w@).take(i as int),
            decreases deck.warnings@.len() - i,
        {
            let w = &deck.warnings[i];
            let copy = Warning { file: owned(w.file.as_str()), line: w.line, message: owned(w.message.as_str()) };
            let ghost before = warnings@.map_values(|w: Warning| w@);
            assert(copy@ == deck.warnings@[i as int]@);
            warnings.push(copy);
            assert(warnings@.map_values(|w: Warning| w@) =~= before.push(copy@));
            assert(warnings@.map_values(|w: Warning| w@) =~= deck.warnings@.map_values(|w: Warning| w@).take(i + 1));
            i = i + 1;
        }
        let ghost dw = warnings@.map_values(|w: Warning| w@);
        assert(dw =~= deck.warnings@.map_values(|w: Warning| w@));
        let mut lw = log_warnings;
        warnings.append(&mut lw);
        assert(warnings@.map_values(|w: Warning| w@) =~= dw + log_warnings@.map_values(|w: Warning| w@));
        LoadedDeck { deck, ledger, warnings }
    }
}


/// Index of the last `.` in `s`, or -1.
pub open spec fn last_dot(s: Seq<char>) -> int
    decreases s.len(),
{
    if s.len() == 0 {
        -1
    } else if s.last() == '.' {
        s.len() - 1
    } else {
        last_dot(s.drop_last())
    }
}

/// The stem of a file name whose extension is `ext`, split as
/// `Path::file_stem` and `Path::extension` split it: at the last dot,
/// unless that dot opens the name.
pub open spec fn stem_for(name: Seq<char>, ext: Seq<char>) -> Option<Seq<char>> {
    let k = last_dot(name);
    if k > 0 && name.skip(k + 1) == ext {
        Some(name.take(k))
    } else {
        None
    }
}

/// The stems of the files with extension `ext`, hidden ones left out, in
/// directory order.
pub open spec fn dir_stems(names: Seq<Seq<char>>, ext: Seq<char>) -> Seq<Seq<char>>
    decreases names.len(),
{
    if names.len() == 0 {
        Seq::empty()
    } else {
        let rest = dir_stems(names.drop_last(), ext);
        match stem_for(names.last(), ext) {
            Some(st) => if st[0] == '.' {
                rest
            } else {
                rest.push(st)
            },
            None => rest,
        }
    }
}

/// Strings in the order of `str`.
pub open spec fn text_order() -> spec_fn(Seq<char>, Seq<char>) -> bool {
    |a: Seq<char>, b: Seq<char>| crate::commands::text_less(a, b)
}

proof fn lemma_last_dot(s: Seq<char>)
    ensures
        -1 <= last_dot(s) < s.len(),
        last_dot(s) >= 0 ==> s[last_dot(s)] == '.',
        forall|j: int| last_dot(s) < j < s.len() ==> s[j] != '.',
    decreases s.len(),
{
    if s.len() > 0 && s.last() != '.' {
        let d = s.drop_last();
        lemma_last_dot(d);
        assert forall|j: int| last_dot(s) < j < s.len() implies s[j] != '.' by {
            if j < d.len() {
                assert(d[j] == s[j]);
            }
        }
    }
}

fn stem_for_exec(name: &str, ext: &str) -> (r: Option<String>)
    ensures
        match stem_for(name@, ext@) {
            Some(st) => r matches Some(x) && x@ == st,
            None => r is None,
        },
{
    let v = chars_of(name);
    let mut k: usize = v.len();
    while k > 0 && v[k - 1] != '.'
        invariant
            v@ == name@,
            k <= v@.len(),
            forall|j: int| k <= j < v@.len() ==> v@[j] != '.',
        decreases k,
    {
        k = k - 1;
    }
    proof {
        lemma_last_dot(name@);
        if k > 0 {
            assert(v@[k - 1] == '.');
            if last_dot(name@) != k - 1 {
                assert(last_dot(name@) < k - 1 || last_dot(name@) > k - 1);
            }
        }
    }
    if k <= 1 {
        return None;
    }
    let dot = k - 1;
    let tail = crate::strs::slice_chars(v.as_slice(), k, v.len());
    let tail_s = string_of(tail.as_slice());
    if str_eq(tail_s.as_str(), ext) {
        let stem = crate::strs::slice_chars(v.as_slice(), 0, dot);
        assert(stem@ =~= name@.take(dot as int));
        assert(tail@ =~= name@.skip(dot + 1));
        Some(string_of(stem.as_slice()))
    } else {
        assert(tail@ =~= name@.skip(dot + 1));
        None
    }
}

/// The names a directory listing gives for files with extension `ext`:
/// their stems, hidden files left out, sorted as `str` sorts.
pub fn names_with_ext(files: &Vec<String>, ext: &str) -> (r: Vec<String>)
    ensures
        strings_view(r@) == crate::sorting::sort_by_before(dir_stems(strings_view(files@), ext@), text_order()),
{
    let ghost fv = strings_view(files@);
    let mut out: Vec<String> = Vec::new();
    let ghost mut seen: Seq<Seq<char>> = Seq::empty();
    let mut i: usize = 0;
    while i < files.len()
        invariant
            i <= files@.len(),
            fv == strings_view(files@),
            seen == dir_stems(fv.take(i as int), ext@),
            strings_view(out@) == crate::sorting::sort_by_before(seen, text_order()),
        decreases files@.len() - i,
    {
        proof {
            assert(fv.take(i + 1).drop_last() =~= fv.take(i as int));
            assert(fv.take(i + 1).last() == files@[i as int]@);
        }
        let ghost name = files@[i as int]@;
        let ghost next = dir_stems(fv.take(i + 1), ext@);
        match stem_for_exec(files[i].as_str(), ext) {
            Some(st) => {
                let sv = chars_of(st.as_str());
                let hidden = sv.len() > 0 && sv[0] == '.';
                proof {
                    lemma_last_dot(name);
                    assert(st@.len() > 0);
                    assert(hidden == (st@[0] == '.'));
                    if hidden {
                        assert(next == seen);
                    } else {
                        assert(next == seen.push(st@));
                        assert(seen.push(st@).drop_last() =~= seen);
                    }
                }
                if !hidden {
                    let ghost before = strings_view(out@);
                    let mut pos: usize = out.len();
                    while pos > 0 && crate::commands::text_less_pub(st.as_str(), out[pos - 1].as_str())
                        invariant
                            pos <= out@.len(),
                            before == strings_view(out@),
                            forall|j: int| pos <= j < out@.len() ==> (text_order())(st@, #[trigger] before[j]),
                        decreases pos,
                    {
                        pos = pos - 1;
                    }
                    proof {
                        crate::sorting::lemma_insert_by_at(before, st@, text_order(), pos as int);
                    }
                    out.insert(pos, st);
                    proof {
                        assert(strings_view(out@) =~= before.take(pos as int).push(st@) + before.skip(pos as int));
                        seen = seen.push(st@);
                    }
                }
            },
            None => {
                assert(next == seen);
            },
        }
        i = i + 1;
    }
    assert(fv.take(i as int) =~= fv);
    out
}

/// The names in `logs` that are not in `decks`, in order.
pub open spec fn not_among(logs: Seq<Seq<char>>, decks: Seq<Seq<char>>) -> Seq<Seq<char>>
    decreases logs.len(),
{
    if logs.len() == 0 {
        Seq::empty()
    } else {
        let rest = not_among(logs.drop_last(), decks);
        if decks.contains(logs.last()) {
            rest
        } else {
            rest.push(logs.last())
        }
    }
}

/// Logs without a deck beside them.
pub fn strays(logs: &Vec<String>, decks: &Vec<String>) -> (r: Vec<String>)
    ensures
        strings_view(r@) == not_among(strings_view(logs@), strings_view(decks@)),
{
    let ghost lv = strings_view(logs@);
    let ghost dv = strings_view(decks@);
    let mut out: Vec<String> = Vec::new();
    let mut i: usize = 0;
    while i < logs.len()
        invariant
            i <= logs@.len(),
            lv == strings_view(logs@),
            dv == strings_view(decks@),
            strings_view(out@) == not_among(lv.take(i as int), dv),
        decreases logs@.len() - i,
    {
        proof {
            assert(lv.take(i + 1).drop_last() =~= lv.take(i as int));
            assert(lv.take(i + 1).last() == logs@[i as int]@);
        }
        let mut found = false;
        let mut j: usize = 0;
        while j < decks.len()
            invariant
                j <= decks@.len(),
                dv == strings_view(decks@),
                i < logs@.len(),
                found == (exists|q: int| 0 <= q < j && dv[q] == logs@[i as int]@),
            decreases decks@.len() - j,
        {
            assert(dv[j as int] == decks@[j as int]@);
            if str_eq(decks[j].as_str(), logs[i].as_str()) {
                found = true;
            }
            j = j + 1;
        }
        proof {
            if found {
                let q = choose|q: int| 0 <= q < j && dv[q] == logs@[i as int]@;
                assert(dv.contains(logs@[i as int]@));
            } else {
                assert(!dv.contains(logs@[i as int]@));
            }
        }
        if !found {
            let ghost b = strings_view(out@);
            out.push(owned(logs[i].as_str()));
            assert(strings_view(out@) =~= b.push(logs@[i as int]@));
        }
        i = i + 1;
    }
    assert(lv.take(i as int) =~= lv);
    out
}

} // verus!
