//! Pure, verified CRUD over the ordered shortcut collection.
//!
//! Every user-facing operation of the tool is a load-modify-save cycle. The
//! load and save halves are plain I/O and belong to the host program; the
//! modify halves live here, as functions from collection to collection with
//! exact contracts. The collection is an ordered `Vec<Shortcut>`; insertion
//! order is preserved and is also serialization order.
//!
//! Duplicate names are allowed at insertion (an `add` never checks for an
//! existing name, matching the store's historical behaviour); every lookup
//! resolves to the first match in storage order, and `remove` drops every
//! match. Validation is the minimal rule: only an empty command is
//! rejected; no token has to name an existing filesystem entry.

use vstd::prelude::*;

use crate::errors::Error;
use crate::resolve::{normalize_command, spec_normalize_command};
use crate::shortcut::{Shortcut, ShortcutModel};

verus! {

/// Whether some shortcut in `c` is named `name`.
pub open spec fn has_match(c: Seq<ShortcutModel>, name: Seq<char>) -> bool {
    exists|i: int| 0 <= i < c.len() && #[trigger] c[i].name == name
}

/// `c` with every shortcut named `name` dropped.
pub open spec fn without_name(c: Seq<ShortcutModel>, name: Seq<char>) -> Seq<ShortcutModel> {
    c.filter(|m: ShortcutModel| m.name != name)
}

/// How many shortcuts in `c` are named `name`.
pub open spec fn count_matches(c: Seq<ShortcutModel>, name: Seq<char>) -> nat {
    c.filter(|m: ShortcutModel| m.name == name).len()
}

/// The collection a fresh (or just reset) store holds: the empty one.
pub fn initial_collection() -> (r: Vec<Shortcut>)
    ensures
        r.deep_view() == Seq::<ShortcutModel>::empty(),
{
    let r: Vec<Shortcut> = Vec::new();
    assert(r.deep_view() =~= Seq::<ShortcutModel>::empty());
    r
}

/// String equality on character views, checked character by character.
pub fn str_eq(a: &str, b: &str) -> (r: bool)
    ensures
        r == (a@ == b@),
{
    let la = a.unicode_len();
    let lb = b.unicode_len();
    if la != lb {
        assert(a@ != b@) by {
            assert(a@.len() != b@.len());
        }
        return false;
    }
    let mut i: usize = 0;
    while i < la
        invariant
            la == a@.len(),
            la == b@.len(),
            0 <= i <= la,
            forall|j: int| 0 <= j < i ==> a@[j] == b@[j],
        decreases la - i,
    {
        if a.get_char(i) != b.get_char(i) {
            return false;
        }
        i += 1;
    }
    assert(a@ =~= b@);
    true
}

/// Validates and appends a new shortcut.
///
/// The command must be non-empty; otherwise nothing changes and a
/// `ValidationError` comes back. Each token is normalized first:
/// `canonical[i]` is the canonical absolute form the filesystem reports for
/// token `i` (`None` where the token does not resolve to an existing entry),
/// and [`spec_normalize_token`] says how it is applied. No uniqueness check
/// is made: a name may occur several times after repeated adds.
pub fn add_shortcut(
    shortcuts: &mut Vec<Shortcut>,
    name: &str,
    command: Vec<String>,
    canonical: Vec<Option<String>>,
) -> (r: Result<(), Error>)
    requires
        canonical.deep_view().len() == command.deep_view().len(),
    ensures
        command@.len() == 0 ==> r == Result::<(), Error>::Err(Error::ValidationError)
            && final(shortcuts).deep_view() == old(shortcuts).deep_view(),
        command@.len() > 0 ==> r == Result::<(), Error>::Ok(())
            && final(shortcuts).deep_view() == old(shortcuts).deep_view().push(
            ShortcutModel {
                name: name@,
                command: spec_normalize_command(command.deep_view(), canonical.deep_view()),
            },
        ),
{
    if command.len() == 0 {
        return Err(Error::ValidationError);
    }
    let ghost cmd_model = command.deep_view();
    let ghost canon_model = canonical.deep_view();
    let normalized = normalize_command(command, &canonical);
    let entry = Shortcut { project_name: name.to_owned(), run_command: normalized };
    shortcuts.push(entry);
    assert(shortcuts.deep_view() =~= old(shortcuts).deep_view().push(
        ShortcutModel {
            name: name@,
            command: spec_normalize_command(cmd_model, canon_model),
        },
    ));
    Ok(())
}

/// Filtering a sequence extended by one element keeps the filtered prefix
/// and appends the element exactly when it satisfies the predicate.
proof fn lemma_filter_snoc<A>(s: Seq<A>, x: A, pred: spec_fn(A) -> bool)
    ensures
        s.push(x).filter(pred) == if pred(x) {
            s.filter(pred).push(x)
        } else {
            s.filter(pred)
        },
{
    reveal(Seq::filter);
    assert(s.push(x).drop_last() =~= s);
    assert(s.push(x).last() == x);
}

/// Removes every shortcut named `name`, keeping the order of the rest.
///
/// Returns whether anything matched; when nothing did, the collection is
/// unchanged and the caller can report "not found" without treating it as an
/// error.
pub fn remove_shortcut(shortcuts: &mut Vec<Shortcut>, name: &str) -> (found: bool)
    ensures
        final(shortcuts).deep_view() == without_name(old(shortcuts).deep_view(), name@),
        found == has_match(old(shortcuts).deep_view(), name@),
        !found ==> final(shortcuts).deep_view() == old(shortcuts).deep_view(),
{
    let ghost orig = shortcuts.deep_view();
    let mut kept: Vec<Shortcut> = Vec::new();
    let mut found = false;
    let mut i: usize = 0;
    while i < shortcuts.len()
        invariant
            shortcuts.deep_view() == orig,
            i <= orig.len(),
            kept.deep_view() == orig.take(i as int).filter(
                |m: ShortcutModel| m.name != name@,
            ),
            found == has_match(orig.take(i as int), name@),
            !found ==> kept.deep_view() == orig.take(i as int),
        decreases shortcuts.len() - i,
    {
        let ghost pred = |m: ShortcutModel| m.name != name@;
        let ghost prefix = orig.take(i as int);
        assert(orig[i as int] == shortcuts[i as int]@);
        assert(orig.take(i + 1) =~= prefix.push(orig[i as int]));
        proof {
            lemma_filter_snoc(prefix, orig[i as int], pred);
        }
        if str_eq(shortcuts[i].project_name.as_str(), name) {
            found = true;
            assert(has_match(orig.take(i + 1), name@)) by {
                assert(orig.take(i + 1)[i as int].name == name@);
            }
        } else {
            let s = shortcuts[i].clone();
            assert(s@ == orig[i as int]);
            kept.push(s);
            assert(kept.deep_view() =~= prefix.filter(pred).push(orig[i as int]));
            assert(has_match(orig.take(i + 1), name@) == has_match(prefix, name@)) by {
                assert(forall|j: int|
                    0 <= j < i + 1 && #[trigger] orig.take(i + 1)[j].name == name@ ==> j < i);
            }
            assert(!has_match(prefix, name@) ==> (kept.deep_view() =~= orig.take(i + 1)));
        }
        i += 1;
    }
    assert(orig.take(orig.len() as int) =~= orig);
    *shortcuts = kept;
    found
}

/// A reference to the first shortcut named `name`, or `None` when there is
/// no match.
pub fn find_shortcut<'a>(shortcuts: &'a Vec<Shortcut>, name: &str) -> (r: Option<&'a Shortcut>)
    ensures
        match r {
            Some(s) => exists|i: int|
                0 <= i < shortcuts.deep_view().len() && shortcuts.deep_view()[i] == s@
                    && s@.name == name@ && (forall|j: int|
                    0 <= j < i ==> #[trigger] shortcuts.deep_view()[j].name != name@),
            None => !has_match(shortcuts.deep_view(), name@),
        },
{
    let ghost c = shortcuts.deep_view();
    let mut i: usize = 0;
    while i < shortcuts.len()
        invariant
            shortcuts.deep_view() == c,
            0 <= i <= c.len(),
            forall|j: int| 0 <= j < i ==> #[trigger] c[j].name != name@,
        decreases shortcuts.len() - i,
    {
        if str_eq(shortcuts[i].project_name.as_str(), name) {
            let r = &shortcuts[i];
            assert(r@ == c[i as int]);
            assert(0 <= i < c.len() && c[i as int] == r@ && r@.name == name@ && (forall|j: int|
                0 <= j < i ==> #[trigger] c[j].name != name@));
            return Some(r);
        }
        i += 1;
    }
    None
}

/// The full collection, in storage order, for display.
pub fn list_shortcuts(shortcuts: &Vec<Shortcut>) -> (r: &Vec<Shortcut>)
    ensures
        r.deep_view() == shortcuts.deep_view(),
{
    shortcuts
}

/// Replaces the command of the first shortcut named `name` wholesale, after
/// normalizing each new token as an add would ([`spec_normalize_command`];
/// `canonical` holds the filesystem's answer per token).
///
/// With `new_command == None` no field changes, yet the operation still
/// succeeds (the caller persists the collection unchanged). Returns whether
/// a shortcut matched; when none did, the collection is unchanged.
pub fn update_shortcut(
    shortcuts: &mut Vec<Shortcut>,
    name: &str,
    new_command: Option<Vec<String>>,
    canonical: Vec<Option<String>>,
) -> (found: bool)
    requires
        new_command matches Some(nc) ==> canonical.deep_view().len() == nc.deep_view().len(),
    ensures
        found == has_match(old(shortcuts).deep_view(), name@),
        !found ==> final(shortcuts).deep_view() == old(shortcuts).deep_view(),
        new_command is None ==> final(shortcuts).deep_view() == old(shortcuts).deep_view(),
        found ==> exists|i: int|
            {
                &&& 0 <= i < old(shortcuts).deep_view().len()
                &&& old(shortcuts).deep_view()[i].name == name@
                &&& (forall|j: int|
                    0 <= j < i ==> #[trigger] old(shortcuts).deep_view()[j].name != name@)
                &&& final(shortcuts).deep_view() == old(shortcuts).deep_view().update(
                    i,
                    ShortcutModel {
                        name: old(shortcuts).deep_view()[i].name,
                        command: match new_command {
                            Some(nc) => spec_normalize_command(
                                nc.deep_view(),
                                canonical.deep_view(),
                            ),
                            None => old(shortcuts).deep_view()[i].command,
                        },
                    },
                )
            },
{
    let ghost c = old(shortcuts).deep_view();
    let mut i: usize = 0;
    while i < shortcuts.len()
        invariant
            c == old(shortcuts).deep_view(),
            shortcuts.deep_view() == c,
            0 <= i <= c.len(),
            forall|j: int| 0 <= j < i ==> #[trigger] c[j].name != name@,
            new_command matches Some(nc) ==> canonical.deep_view().len() == nc.deep_view().len(),
        decreases shortcuts.len() - i,
    {
        if str_eq(shortcuts[i].project_name.as_str(), name) {
            assert(has_match(c, name@)) by {
                assert(c[i as int].name == name@);
            }
            let ghost replaced = ShortcutModel {
                name: c[i as int].name,
                command: match &new_command {
                    Some(nc) => spec_normalize_command(nc.deep_view(), canonical.deep_view()),
                    None => c[i as int].command,
                },
            };
            match new_command {
                Some(nc) => {
                    let normalized = normalize_command(nc, &canonical);
                    let name_kept = shortcuts[i].project_name.clone();
                    shortcuts.set(
                        i,
                        Shortcut { project_name: name_kept, run_command: normalized },
                    );
                    assert(shortcuts.deep_view() =~= c.update(i as int, replaced));
                },
                None => {
                    assert(replaced == c[i as int]);
                    assert(shortcuts.deep_view() =~= c.update(i as int, replaced));
                },
            }
            proof {
                let w = i as int;
                assert(0 <= w < c.len() && c[w].name == name@ && (forall|j: int|
                    0 <= j < w ==> #[trigger] c[j].name != name@) && shortcuts.deep_view()
                    == c.update(w, replaced));
            }
            return true;
        }
        i += 1;
    }
    false
}

/// After a remove, no lookup for that name can succeed, and the length has
/// gone down by exactly the prior number of matches.
pub proof fn lemma_remove_effect(c: Seq<ShortcutModel>, name: Seq<char>)
    ensures
        !has_match(without_name(c, name), name),
        without_name(c, name).len() == c.len() - count_matches(c, name),
    decreases c.len(),
{
    let keep = |m: ShortcutModel| m.name != name;
    let gone = |m: ShortcutModel| m.name == name;
    if c.len() == 0 {
        reveal(Seq::filter);
        assert(c.filter(keep).len() == 0);
        assert(c.filter(gone).len() == 0);
    } else {
        let rest = c.drop_last();
        lemma_remove_effect(rest, name);
        lemma_filter_snoc(rest, c.last(), keep);
        lemma_filter_snoc(rest, c.last(), gone);
        assert(c =~= rest.push(c.last()));
        assert(without_name(c, name) == if keep(c.last()) {
            without_name(rest, name).push(c.last())
        } else {
            without_name(rest, name)
        });
        if has_match(without_name(c, name), name) {
            let i = choose|i: int|
                0 <= i < without_name(c, name).len() && #[trigger] without_name(c, name)[i].name
                    == name;
            if keep(c.last()) && i == without_name(c, name).len() - 1 {
                assert(without_name(c, name)[i] == c.last());
                assert(false);
            } else {
                assert(without_name(rest, name)[i] == without_name(c, name)[i]);
                assert(has_match(without_name(rest, name), name));
                assert(false);
            }
        }
    }
}

} // verus!
