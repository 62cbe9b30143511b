//! Names of entries as paths, and what becomes of the files to archive.

use vstd::prelude::*;

verus! {

/// What to do with something that is found among the files to archive.
#[derive(Debug, Clone, Copy, PartialEq, Eq, Structural)]
pub enum InputAction {
    /// Leave a symbolic link out. It could lead out of the tree.
    SkipLink,
    /// Add a file.
    Add,
    /// Go on with what is in a directory.
    Enter,
    /// Leave out what is none of these.
    SkipOther,
}

/// What to do with something of this kind.
pub open spec fn action_for(is_link: bool, is_file: bool, is_dir: bool) -> InputAction {
    if is_link {
        InputAction::SkipLink
    } else if is_file {
        InputAction::Add
    } else if is_dir {
        InputAction::Enter
    } else {
        InputAction::SkipOther
    }
}

/// A link is left out, whatever it leads to, and nothing else is taken for one.
/// Every file that is no link is added, and every other directory entered.
pub proof fn lemma_actions(is_link: bool, is_file: bool, is_dir: bool)
    ensures
        action_for(is_link, is_file, is_dir) == InputAction::SkipLink <==> is_link,
        action_for(is_link, is_file, is_dir) == InputAction::Add <==> is_file && !is_link,
        action_for(is_link, is_file, is_dir) == InputAction::Enter <==> is_dir && !is_link
            && !is_file,
        action_for(is_link, is_file, is_dir) == InputAction::SkipOther <==> !is_dir && !is_link
            && !is_file,
{
}

/// What to do with something of this kind.
pub fn input_action(is_link: bool, is_file: bool, is_dir: bool) -> (action: InputAction)
    ensures
        action == action_for(is_link, is_file, is_dir),
        action == (if is_link {
            InputAction::SkipLink
        } else if is_file {
            InputAction::Add
        } else if is_dir {
            InputAction::Enter
        } else {
            InputAction::SkipOther
        }),
{
    if is_link {
        InputAction::SkipLink
    } else if is_file {
        InputAction::Add
    } else if is_dir {
        InputAction::Enter
    } else {
        InputAction::SkipOther
    }
}

/// The parts of a name between slashes.
pub open spec fn segments(name: Seq<char>) -> Seq<Seq<char>>
    decreases name.len(),
{
    if name.len() == 0 {
        seq![Seq::empty()]
    } else {
        let before = segments(name.drop_last());
        if name.last() == '/' {
            before.push(Seq::empty())
        } else {
            before.drop_last().push(before.last().push(name.last()))
        }
    }
}

/// The segment leads nowhere.
pub open spec fn is_idle(segment: Seq<char>) -> bool {
    segment == Seq::<char>::empty() || segment == seq!['.']
}

/// The segment leads up.
pub open spec fn is_parent(segment: Seq<char>) -> bool {
    segment == seq!['.', '.']
}

/// The segments that lead somewhere.
pub open spec fn kept(segs: Seq<Seq<char>>) -> Seq<Seq<char>>
    decreases segs.len(),
{
    if segs.len() == 0 {
        Seq::empty()
    } else if is_idle(segs.last()) {
        kept(segs.drop_last())
    } else {
        kept(segs.drop_last()).push(segs.last())
    }
}

/// The segments with slashes between them.
pub open spec fn joined(segs: Seq<Seq<char>>) -> Seq<char>
    decreases segs.len(),
{
    if segs.len() == 0 {
        Seq::empty()
    } else if segs.len() == 1 {
        segs[0]
    } else {
        joined(segs.drop_last()).push('/') + segs.last()
    }
}

/// Some segment leads up.
pub open spec fn climbs(segs: Seq<Seq<char>>) -> bool {
    exists|i: int| 0 <= i < segs.len() && is_parent(#[trigger] segs[i])
}

/// The name without the segments that lead nowhere, where none leads up and any
/// are left.
pub open spec fn cleaned(name: Seq<char>) -> Option<Seq<char>> {
    let segs = segments(name);
    if climbs(segs) || kept(segs).len() == 0 {
        None
    } else {
        Some(joined(kept(segs)))
    }
}

/// The name may stand below a directory on any system: it is not empty, does
/// not begin at a root, and has neither a backslash nor a colon.
pub open spec fn is_plain(name: Seq<char>) -> bool {
    &&& name.len() > 0
    &&& name[0] != '/'
    &&& forall|i: int| 0 <= i < name.len() ==> #[trigger] name[i] != '\\' && name[i] != ':'
}

/// The path below the target directory that an entry is to be extracted to.
pub open spec fn sanitized(name: Seq<char>) -> Option<Seq<char>> {
    if is_plain(name) {
        cleaned(name)
    } else {
        None
    }
}

/// No segment has a slash in it.
spec fn slash_free(segs: Seq<Seq<char>>) -> bool {
    forall|i: int, j: int|
        0 <= i < segs.len() && 0 <= j < segs[i].len() ==> #[trigger] segs[i][j] != '/'
}

proof fn lemma_segments(name: Seq<char>)
    ensures
        segments(name).len() > 0,
        slash_free(segments(name)),
    decreases name.len(),
{
    if name.len() > 0 {
        lemma_segments(name.drop_last());
    }
}

proof fn lemma_kept(segs: Seq<Seq<char>>)
    requires
        slash_free(segs),
        !climbs(segs),
    ensures
        slash_free(kept(segs)),
        forall|i: int|
            0 <= i < kept(segs).len() ==> !is_idle(#[trigger] kept(segs)[i]) && !is_parent(
                kept(segs)[i],
            ),
        forall|i: int| 0 <= i < kept(segs).len() ==> segs.contains(#[trigger] kept(segs)[i]),
    decreases segs.len(),
{
    if segs.len() > 0 {
        let front = segs.drop_last();
        assert(!climbs(front)) by {
            if climbs(front) {
                let i = choose|i: int| 0 <= i < front.len() && is_parent(#[trigger] front[i]);
                assert(is_parent(segs[i]));
            }
        }
        assert(slash_free(front)) by {
            assert forall|i: int, j: int|
                0 <= i < front.len() && 0 <= j < front[i].len() implies #[trigger] front[i][j]
                != '/' by {
                assert(segs[i][j] != '/');
            }
        }
        lemma_kept(front);
        assert(!is_parent(segs[segs.len() - 1]));
        let k = kept(segs);
        assert forall|i: int| 0 <= i < k.len() implies segs.contains(#[trigger] k[i]) by {
            if i < kept(front).len() {
                let x = kept(front)[i];
                assert(k[i] == x);
                assert(front.contains(x));
                let j = choose|j: int| 0 <= j < front.len() && front[j] == x;
                assert(segs[j] == x);
            } else {
                assert(segs[segs.len() - 1] == k[i]);
            }
        }
    }
}

proof fn lemma_segments_append(name: Seq<char>, tail: Seq<char>)
    requires
        forall|j: int| 0 <= j < tail.len() ==> #[trigger] tail[j] != '/',
    ensures
        segments(name + tail) == segments(name).drop_last().push(segments(name).last() + tail),
    decreases tail.len(),
{
    lemma_segments(name);
    let s = segments(name);
    if tail.len() == 0 {
        assert(name + tail =~= name);
        assert(s.last() + tail =~= s.last());
        assert(s.drop_last().push(s.last()) =~= s);
    } else {
        let t = tail.drop_last();
        lemma_segments_append(name, t);
        assert((name + tail).drop_last() =~= name + t);
        assert((name + tail).last() == tail.last());
        let p = segments(name + t);
        assert(p.drop_last() =~= s.drop_last());
        assert(p.last() =~= s.last() + t);
        assert(p.last().push(tail.last()) =~= s.last() + tail);
    }
}

/// The segments of joined segments are those segments.
proof fn lemma_joined(segs: Seq<Seq<char>>)
    requires
        segs.len() > 0,
        slash_free(segs),
    ensures
        segments(joined(segs)) == segs,
    decreases segs.len(),
{
    let last = segs.last();
    assert forall|j: int| 0 <= j < last.len() implies #[trigger] last[j] != '/' by {
        assert(segs[segs.len() - 1][j] != '/');
    }
    if segs.len() == 1 {
        let none = Seq::<char>::empty();
        lemma_segments_append(none, last);
        assert(none + last =~= last);
        assert(segments(none) =~= seq![none]);
        assert(segments(none).drop_last().push(none + last) =~= segs);
    } else {
        let front = segs.drop_last();
        assert(slash_free(front)) by {
            assert forall|i: int, j: int|
                0 <= i < front.len() && 0 <= j < front[i].len() implies #[trigger] front[i][j]
                != '/' by {
                assert(segs[i][j] != '/');
            }
        }
        lemma_joined(front);
        let head = joined(front).push('/');
        assert(head.drop_last() =~= joined(front));
        assert(segments(head) =~= front.push(Seq::empty()));
        lemma_segments_append(head, last);
        assert(segments(head).drop_last() =~= front);
        assert(Seq::<char>::empty() + last =~= last);
        assert(front.push(last) =~= segs);
    }
}

/// A path that an entry is extracted to stays below the target directory: it
/// begins with no slash, and each of its segments is one of the name's that
/// leads somewhere and not up.
pub proof fn lemma_sanitized_stays_below(name: Seq<char>)
    ensures
        sanitized(name) matches Some(path) ==> {
            &&& path.len() > 0
            &&& path[0] != '/'
            &&& forall|i: int|
                0 <= i < segments(path).len() ==> {
                    &&& !is_idle(#[trigger] segments(path)[i])
                    &&& !is_parent(segments(path)[i])
                    &&& segments(name).contains(segments(path)[i])
                }
        },
{
    if let Some(path) = sanitized(name) {
        let segs = segments(name);
        let k = kept(segs);
        lemma_segments(name);
        lemma_kept(segs);
        lemma_joined(k);
        assert(!is_idle(k[0]));
        if k[0].len() == 0 {
            assert(k[0] =~= Seq::<char>::empty());
        }
        lemma_joined_start(k);
        assert(k[0][0] != '/');
    }
}

proof fn lemma_joined_start(segs: Seq<Seq<char>>)
    requires
        segs.len() > 0,
        segs[0].len() > 0,
    ensures
        joined(segs).len() > 0,
        joined(segs)[0] == segs[0][0],
    decreases segs.len(),
{
    if segs.len() > 1 {
        lemma_joined_start(segs.drop_last());
    }
}

/// Cleaning a clean path changes nothing.
pub proof fn lemma_cleaned_twice(name: Seq<char>)
    ensures
        cleaned(name) matches Some(path) ==> cleaned(path) == Some(path),
{
    if let Some(path) = cleaned(name) {
        let segs = segments(name);
        let k = kept(segs);
        lemma_segments(name);
        lemma_kept(segs);
        lemma_joined(k);
        lemma_kept_all(k);
        assert(!climbs(k)) by {
            if climbs(k) {
                let i = choose|i: int| 0 <= i < k.len() && is_parent(#[trigger] k[i]);
                assert(!is_parent(k[i]));
            }
        }
    }
}

proof fn lemma_kept_all(segs: Seq<Seq<char>>)
    requires
        forall|i: int| 0 <= i < segs.len() ==> !is_idle(#[trigger] segs[i]),
    ensures
        kept(segs) == segs,
    decreases segs.len(),
{
    if segs.len() > 0 {
        let front = segs.drop_last();
        assert forall|i: int| 0 <= i < front.len() implies !is_idle(#[trigger] front[i]) by {
            assert(!is_idle(segs[i]));
        }
        lemma_kept_all(front);
        assert(!is_idle(segs[segs.len() - 1]));
        assert(front.push(segs.last()) =~= segs);
    } else {
        assert(kept(segs) =~= segs);
    }
}

/// Text with a slash between its parts.
pub open spec fn path_of(parts: Seq<Seq<char>>) -> Seq<char>
    decreases parts.len(),
{
    if parts.len() <= 1 {
        if parts.len() == 0 {
            Seq::empty()
        } else {
            parts[0]
        }
    } else {
        parts[0] + seq!['/'] + path_of(parts.drop_first())
    }
}

/// No part has a slash in it.
pub open spec fn are_parts(parts: Seq<Seq<char>>) -> bool {
    &&& parts.len() > 0
    &&& forall|i: int, j: int|
        0 <= i < parts.len() && 0 <= j < parts[i].len() ==> #[trigger] parts[i][j] != '/'
}

/// The parts that are neither empty nor a single dot, in order.
pub open spec fn without_idle(parts: Seq<Seq<char>>) -> Seq<Seq<char>> {
    parts.filter(|p: Seq<char>| p != Seq::<char>::empty() && p != seq!['.'])
}

proof fn lemma_path_push(parts: Seq<Seq<char>>, last: Seq<char>)
    requires
        parts.len() > 0,
    ensures
        path_of(parts.push(last)) == path_of(parts).push('/') + last,
    decreases parts.len(),
{
    let all = parts.push(last);
    if parts.len() == 1 {
        assert(all.drop_first() =~= seq![last]);
        assert(path_of(seq![last]) == last);
        assert(path_of(all) =~= path_of(parts).push('/') + last);
    } else {
        lemma_path_push(parts.drop_first(), last);
        assert(all.drop_first() =~= parts.drop_first().push(last));
        assert(path_of(all) =~= path_of(parts).push('/') + last);
    }
}

proof fn lemma_path_joined(parts: Seq<Seq<char>>)
    ensures
        path_of(parts) == joined(parts),
    decreases parts.len(),
{
    if parts.len() > 1 {
        let front = parts.drop_last();
        lemma_path_joined(front);
        lemma_path_push(front, parts.last());
        assert(front.push(parts.last()) =~= parts);
    }
}

proof fn lemma_without_idle(parts: Seq<Seq<char>>)
    ensures
        without_idle(parts) == kept(parts),
    decreases parts.len(),
{
    reveal(Seq::filter);
    if parts.len() > 0 {
        lemma_without_idle(parts.drop_last());
    } else {
        assert(without_idle(parts) =~= kept(parts));
    }
}

/// Every name is made of parts with slashes between them.
pub proof fn lemma_name_parts(name: Seq<char>) -> (parts: Seq<Seq<char>>)
    ensures
        are_parts(parts),
        path_of(parts) == name,
    decreases name.len(),
{
    if name.len() == 0 {
        let parts = seq![Seq::<char>::empty()];
        assert(path_of(parts) =~= name);
        parts
    } else {
        let before = lemma_name_parts(name.drop_last());
        let c = name.last();
        if c == '/' {
            let parts = before.push(Seq::empty());
            lemma_path_push(before, Seq::empty());
            assert(path_of(parts) =~= name);
            assert(are_parts(parts)) by {
                assert forall|i: int, j: int|
                    0 <= i < parts.len() && 0 <= j < parts[i].len() implies #[trigger] parts[i][j]
                    != '/' by {
                    assert(before[i][j] != '/');
                }
            }
            parts
        } else {
            let front = before.drop_last();
            let parts = front.push(before.last().push(c));
            assert(front.push(before.last()) =~= before);
            assert(path_of(parts) =~= path_of(before).push(c)) by {
                if front.len() > 0 {
                    lemma_path_push(front, before.last());
                    lemma_path_push(front, before.last().push(c));
                } else {
                    assert(before.len() == 1 && parts.len() == 1);
                    assert(path_of(before) == before[0]);
                    assert(path_of(parts) == parts[0]);
                }
            }
            assert(name.drop_last().push(c) =~= name);
            assert(are_parts(parts)) by {
                assert forall|i: int, j: int|
                    0 <= i < parts.len() && 0 <= j < parts[i].len() implies #[trigger] parts[i][j]
                    != '/' by {
                    if i < front.len() || j < before[i].len() {
                        assert(before[i][j] != '/');
                    }
                }
            }
            parts
        }
    }
}

/// A name comes out as its parts without those that are empty or a single dot,
/// in order, whatever other characters it has. It is refused where one of its
/// parts is two dots, and where nothing is left of it.
pub proof fn lemma_cleaned_parts(parts: Seq<Seq<char>>)
    requires
        are_parts(parts),
    ensures
        cleaned(path_of(parts)) == (if parts.contains(seq!['.', '.']) || without_idle(parts).len()
            == 0 {
            None::<Seq<char>>
        } else {
            Some(path_of(without_idle(parts)))
        }),
{
    lemma_path_joined(parts);
    lemma_joined(parts);
    lemma_without_idle(parts);
    lemma_path_joined(kept(parts));
    let up = seq!['.', '.'];
    if parts.contains(up) {
        let i = choose|i: int| 0 <= i < parts.len() && parts[i] == up;
        assert(is_parent(parts[i]));
        assert(climbs(parts));
    }
    if climbs(parts) {
        let i = choose|i: int| 0 <= i < parts.len() && is_parent(#[trigger] parts[i]);
        assert(parts[i] == up);
    }
}

/// A name that is not empty, does not begin at a root, and has neither a backslash
/// nor a colon in it comes out as its parts without those that are empty or a
/// single dot, in order, whatever other characters it has. It is refused where one
/// of its parts is two dots, and where nothing is left of it.
pub proof fn lemma_sanitized_parts(name: Seq<char>, parts: Seq<Seq<char>>)
    requires
        name.len() > 0,
        name[0] != '/',
        !name.contains('\\'),
        !name.contains(':'),
        are_parts(parts),
        path_of(parts) == name,
    ensures
        sanitized(name) == (if parts.contains(seq!['.', '.']) || without_idle(parts).len() == 0 {
            None::<Seq<char>>
        } else {
            Some(path_of(without_idle(parts)))
        }),
{
    assert forall|i: int| 0 <= i < name.len() implies #[trigger] name[i] != '\\' && name[i]
        != ':' by {
        assert(name.contains(name[i]));
    }
    lemma_cleaned_parts(parts);
}

/// Names that are empty, begin at a root, or have a backslash or a colon in them
/// are refused.
pub proof fn lemma_sanitized_refused(name: Seq<char>)
    requires
        name.len() == 0 || name[0] == '/' || name.contains('\\') || name.contains(':'),
    ensures
        sanitized(name) is None,
{
    if name.contains('\\') {
        let i = choose|i: int| 0 <= i < name.len() && name[i] == '\\';
        assert(name[i] == '\\');
    } else if name.contains(':') {
        let i = choose|i: int| 0 <= i < name.len() && name[i] == ':';
        assert(name[i] == ':');
    }
}

/// Add a segment behind those in `out`, unless it leads nowhere. Tells whether
/// it may be added at all.
fn add_segment(out: &mut Vec<char>, segment: &Vec<char>, Ghost(done): Ghost<Seq<Seq<char>>>) -> (ok:
    bool)
    requires
        old(out)@ == joined(kept(done)),
        kept(done).len() == 0 <==> old(out)@.len() == 0,
    ensures
        ok == !is_parent(segment@),
        ok ==> final(out)@ == joined(kept(done.push(segment@))),
        ok ==> (kept(done.push(segment@)).len() == 0 <==> final(out)@.len() == 0),
{
    let n = segment.len();
    let ghost all = done.push(segment@);
    proof {
        assert(all.drop_last() =~= done);
        assert(all.last() == segment@);
        if n == 0 {
            assert(segment@ =~= Seq::<char>::empty());
        }
        if n == 1 && segment@[0] == '.' {
            assert(segment@ =~= seq!['.']);
        }
        if n == 2 && segment@[0] == '.' && segment@[1] == '.' {
            assert(segment@ =~= seq!['.', '.']);
        }
    }
    if n == 0 || (n == 1 && segment[0] == '.') {
        return true;
    }
    if n == 2 && segment[0] == '.' && segment[1] == '.' {
        return false;
    }
    let ghost before = kept(done);
    if out.len() > 0 {
        out.push('/');
    }
    let ghost head = out@;
    let mut i: usize = 0;
    assert(head + segment@.take(0) =~= head);
    while i < n
        invariant
            i <= n == segment@.len(),
            out@ == head + segment@.take(i as int),
        decreases n - i,
    {
        out.push(segment[i]);
        i += 1;
        assert(out@ =~= head + segment@.take(i as int));
    }
    proof {
        assert(segment@.take(n as int) =~= segment@);
        let k = kept(all);
        assert(k == before.push(segment@));
        assert(k.drop_last() =~= before);
        if before.len() == 0 {
            assert(joined(before) =~= Seq::<char>::empty());
            assert(k[0] == segment@);
            assert(out@ =~= segment@);
        }
    }
    true
}

/// Characters as a string.
fn to_string(chars: &Vec<char>) -> (s: String)
    ensures
        s@ == chars@,
{
    let mut s = String::new();
    let mut i: usize = 0;
    assert(s@ =~= chars@.take(0));
    while i < chars.len()
        invariant
            i <= chars@.len(),
            s@ == chars@.take(i as int),
        decreases chars@.len() - i,
    {
        s.push(chars[i]);
        i += 1;
        assert(s@ =~= chars@.take(i as int));
    }
    assert(chars@.take(i as int) =~= chars@);
    s
}

/// The path without the segments that lead nowhere, where none leads up and any
/// are left.
fn clean_path(name: &Vec<char>) -> (r: Option<String>)
    ensures
        match r {
            Some(path) => cleaned(name@) == Some(path@),
            None => cleaned(name@) is None,
        },
{
    let mut out: Vec<char> = Vec::new();
    let mut segment: Vec<char> = Vec::new();
    let ghost mut done: Seq<Seq<char>> = Seq::empty();
    let mut i: usize = 0;
    proof {
        let none = Seq::<char>::empty();
        assert(name@.take(0) =~= none);
        assert(done.push(segment@) =~= seq![none]);
        assert(out@ =~= joined(kept(done)));
    }
    while i < name.len()
        invariant
            i <= name@.len(),
            segments(name@.take(i as int)) == done.push(segment@),
            !climbs(done),
            out@ == joined(kept(done)),
            kept(done).len() == 0 <==> out@.len() == 0,
        decreases name@.len() - i,
    {
        let c = name[i];
        let ghost now = name@.take(i as int);
        let ghost next = name@.take(i + 1);
        proof {
            assert(next.drop_last() =~= now);
            assert(next.last() == c);
            lemma_climbs_prefix(name@, i + 1);
        }
        if c == '/' {
            let ghost before = segment@;
            if !add_segment(&mut out, &segment, Ghost(done)) {
                proof {
                    let s = segments(next);
                    assert(is_parent(s[done.len() as int]));
                }
                return None;
            }
            segment = Vec::new();
            proof {
                lemma_climbs_push(done, before);
                done = done.push(before);
                assert(segment@ =~= Seq::<char>::empty());
            }
        } else {
            let ghost before = segment@;
            segment.push(c);
            proof {
                let s = done.push(before);
                assert(s.drop_last() =~= done);
                assert(s.last() == before);
            }
        }
        i += 1;
    }
    proof {
        assert(name@.take(i as int) =~= name@);
        lemma_climbs_push(done, segment@);
    }
    if !add_segment(&mut out, &segment, Ghost(done)) {
        proof {
            let s = segments(name@);
            assert(is_parent(s[done.len() as int]));
        }
        return None;
    }
    if out.len() == 0 {
        return None;
    }
    Some(to_string(&out))
}

proof fn lemma_climbs_push(segs: Seq<Seq<char>>, last: Seq<char>)
    ensures
        climbs(segs.push(last)) == (climbs(segs) || is_parent(last)),
{
    let all = segs.push(last);
    if climbs(segs) {
        let i = choose|i: int| 0 <= i < segs.len() && is_parent(#[trigger] segs[i]);
        assert(is_parent(all[i]));
    }
    if is_parent(last) {
        assert(is_parent(all[segs.len() as int]));
    }
    if climbs(all) {
        let i = choose|i: int| 0 <= i < all.len() && is_parent(#[trigger] all[i]);
        if i < segs.len() {
            assert(is_parent(segs[i]));
        }
    }
}

/// Complete segments stay, whatever follows.
proof fn lemma_segments_stay(name: Seq<char>, k: int)
    requires
        0 <= k <= name.len(),
    ensures
        segments(name.take(k)).len() <= segments(name).len(),
        forall|i: int|
            0 <= i < segments(name.take(k)).len() - 1 ==> #[trigger] segments(name.take(k))[i]
                == segments(name)[i],
    decreases name.len() - k,
{
    if k < name.len() {
        lemma_segments_stay(name, k + 1);
        lemma_segments(name.take(k));
        let next = name.take(k + 1);
        assert(next.drop_last() =~= name.take(k));
        let p = segments(name.take(k));
        let q = segments(next);
        assert forall|i: int| 0 <= i < p.len() - 1 implies #[trigger] p[i] == segments(name)[i] by {
            assert(q[i] == p[i]);
        }
    } else {
        assert(name.take(k) =~= name);
    }
}

/// A complete segment that leads up stays one, whatever follows.
proof fn lemma_climbs_prefix(name: Seq<char>, k: int)
    requires
        0 < k <= name.len(),
    ensures
        name[k - 1] == '/' && climbs(segments(name.take(k))) ==> climbs(segments(name)),
{
    let p = segments(name.take(k));
    lemma_segments_stay(name, k);
    lemma_segments(name.take(k - 1));
    assert(name.take(k).drop_last() =~= name.take(k - 1));
    if name[k - 1] == '/' && climbs(p) {
        let i = choose|i: int| 0 <= i < p.len() && is_parent(#[trigger] p[i]);
        assert(p.last() == Seq::<char>::empty());
        assert(p[i].len() == 2);
        assert(i < p.len() - 1);
        assert(is_parent(segments(name)[i]));
    }
}

/// The path below the target directory that an entry is to be extracted to.
/// Names that begin at a root, lead up, or have backslashes, drive letters or
/// stream names in them are refused.
pub fn sanitize_archive_path(name: &str) -> (r: Option<String>)
    ensures
        match r {
            Some(path) => sanitized(name@) == Some(path@),
            None => sanitized(name@) is None,
        },
{
    let mut chars: Vec<char> = Vec::new();
    for c in iter: name.chars()
        invariant
            chars@.len() == iter.index(),
            iter.seq() == name@,
            forall|i: int|
                0 <= i < chars@.len() ==> #[trigger] chars@[i] == name@[i] && chars@[i] != '\\'
                    && chars@[i] != ':',
    {
        if c == '\\' || c == ':' {
            return None;
        }
        chars.push(c);
    }
    assert(chars@ =~= name@);
    if chars.len() == 0 || chars[0] == '/' {
        return None;
    }
    clean_path(&chars)
}

/// The path of a name from any directory on, without a root. Names that lead up
/// are refused.
pub fn clean_archive_path(name: &str) -> (r: Option<String>)
    ensures
        match r {
            Some(path) => cleaned(name@) == Some(path@),
            None => cleaned(name@) is None,
        },
{
    let mut chars: Vec<char> = Vec::new();
    for c in iter: name.chars()
        invariant
            chars@.len() == iter.index(),
            iter.seq() == name@,
            forall|i: int| 0 <= i < chars@.len() ==> #[trigger] chars@[i] == name@[i],
    {
        chars.push(c);
    }
    assert(chars@ =~= name@);
    clean_path(&chars)
}

/// The name of an entry in a directory that has a name itself.
pub open spec fn name_below(prefix: Seq<char>, basename: Seq<char>) -> Seq<char> {
    prefix.push('/') + basename
}

/// The name of an entry in a directory is the directory's, one slash, and its own,
/// whatever these are. Its parts are those of the directory and then its own.
pub proof fn lemma_name_below(prefix: Seq<char>, basename: Seq<char>)
    ensures
        name_below(prefix, basename).len() == prefix.len() + 1 + basename.len(),
        name_below(prefix, basename).take(prefix.len() as int) == prefix,
        name_below(prefix, basename)[prefix.len() as int] == '/',
        name_below(prefix, basename).skip((prefix.len() + 1) as int) == basename,
        forall|parts: Seq<Seq<char>>|
            #![trigger path_of(parts)]
            parts.len() > 0 && path_of(parts) == prefix ==> name_below(prefix, basename)
                == path_of(parts.push(basename)),
{
    let name = name_below(prefix, basename);
    assert(name.take(prefix.len() as int) =~= prefix);
    assert(name.skip((prefix.len() + 1) as int) =~= basename);
    assert forall|parts: Seq<Seq<char>>|
        #![trigger path_of(parts)]
        parts.len() > 0 && path_of(parts) == prefix implies name == path_of(
        parts.push(basename),
    ) by {
        lemma_path_push(parts, basename);
    }
}

/// The name of an entry in a directory that has a name itself.
pub fn entry_name(prefix: &str, basename: &str) -> (name: String)
    ensures
        name@ == name_below(prefix@, basename@),
        name@ == prefix@.push('/') + basename@,
{
    let mut name = prefix.to_owned();
    name.push('/');
    name.append(basename);
    name
}

} // verus!
