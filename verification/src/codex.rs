//! Decisions around launching the Codex CLI: which bytes of its stderr to
//! keep, where its login-shell PATH is in a shell's output, which process
//! group to signal, and how the PATH handed to it is merged.

use vstd::prelude::*;
use vstd::utf8::{decode_utf8, valid_utf8};

use crate::manifest::path_components;
use crate::strings::{chars_of, join_path, join_path_text, owned, push_string, same_text};

verus! {

/// The last `limit` bytes of `bytes`, or all of them when there are fewer.
pub open spec fn suffix(bytes: Seq<u8>, limit: nat) -> Seq<u8> {
    if bytes.len() <= limit {
        bytes
    } else {
        bytes.skip(bytes.len() - limit)
    }
}

/// Appends `chunk` to `tail` and keeps only the last `limit` bytes.
pub fn keep_tail(tail: &mut Vec<u8>, chunk: &[u8], limit: usize)
    ensures
        final(tail)@ == suffix(old(tail)@ + chunk@, limit as nat),
{
    let mut index: usize = 0;
    let ghost start = tail@;
    while index < chunk.len()
        invariant
            index <= chunk@.len(),
            tail@ == start + chunk@.take(index as int),
        decreases chunk@.len() - index,
    {
        tail.push(chunk[index]);
        assert(chunk@.take(index + 1) =~= chunk@.take(index as int).push(chunk@[index as int]));
        index += 1;
    }
    assert(chunk@.take(chunk@.len() as int) =~= chunk@);
    if tail.len() > limit {
        let from = tail.len() - limit;
        let mut kept: Vec<u8> = Vec::new();
        let mut position = from;
        while position < tail.len()
            invariant
                from <= position <= tail@.len(),
                kept@ == tail@.subrange(from as int, position as int),
            decreases tail@.len() - position,
        {
            kept.push(tail[position]);
            assert(tail@.subrange(from as int, position + 1) =~= tail@.subrange(
                from as int,
                position as int,
            ).push(tail@[position as int]));
            position += 1;
        }
        assert(tail@.subrange(from as int, tail@.len() as int) =~= tail@.skip(from as int));
        *tail = kept;
    }
}

/// The text `String::from_utf8_lossy` makes of some bytes.
pub uninterp spec fn utf8_lossy(bytes: Seq<u8>) -> Seq<char>;

/// Calls `String::from_utf8_lossy`, which documents that valid UTF-8 comes
/// back unchanged.
#[verifier::external_body]
pub fn lossy_text(bytes: &[u8]) -> (text: String)
    ensures
        text@ == utf8_lossy(bytes@),
        valid_utf8(bytes@) ==> text@ == decode_utf8(bytes@),
{
    String::from_utf8_lossy(bytes).into_owned()
}

/// The bytes of `__CODEXIMAGE_PATH__=`, the marker the login-shell probe
/// prints in front of its PATH.
pub open spec fn marker() -> Seq<u8> {
    seq![95u8, 95, 67, 79, 68, 69, 88, 73, 77, 65, 71, 69, 95, 80, 65, 84, 72, 95, 95, 61]
}

/// The marker the login-shell probe prints in front of its PATH.
fn login_shell_path_marker() -> (bytes: [u8; 20])
    ensures
        bytes@ == marker(),
{
    let bytes: [u8; 20] = [95, 95, 67, 79, 68, 69, 88, 73, 77, 65, 71, 69, 95, 80, 65, 84, 72, 95, 95, 61];
    assert(bytes@ =~= marker());
    bytes
}

/// Whether `needle` occurs in `bytes` at `at`.
pub open spec fn occurs_at(bytes: Seq<u8>, needle: Seq<u8>, at: int) -> bool {
    0 <= at && at + needle.len() <= bytes.len() && bytes.subrange(at, at + needle.len() as int)
        == needle
}

/// The last position where `needle` occurs in `bytes`, scanning from the end.
pub open spec fn last_occurrence(bytes: Seq<u8>, needle: Seq<u8>, end: int) -> Option<int>
    decreases end + 1,
{
    if end < 0 {
        None
    } else if occurs_at(bytes, needle, end) {
        Some(end)
    } else {
        last_occurrence(bytes, needle, end - 1)
    }
}

/// The first newline at or after `start`, or the end of `bytes`.
pub open spec fn line_end(bytes: Seq<u8>, start: int) -> int
    decreases bytes.len() - start,
{
    if start >= bytes.len() {
        bytes.len() as int
    } else if bytes[start] == 10 {
        start
    } else {
        line_end(bytes, start + 1)
    }
}

/// The PATH a login shell printed after the last marker, up to the end of
/// that line; `None` when there is no marker or the value is empty.
pub open spec fn login_shell_path_spec(output: Seq<u8>) -> Option<Seq<u8>> {
    match last_occurrence(output, marker(), output.len() - marker().len()) {
        None => None,
        Some(at) => {
            let start = at + marker().len();
            let end = line_end(output, start);
            if end > start {
                Some(output.subrange(start, end))
            } else {
                None
            }
        },
    }
}

fn occurs_here(bytes: &[u8], at: usize) -> (found: bool)
    requires
        at + marker().len() <= bytes@.len(),
    ensures
        found == occurs_at(bytes@, marker(), at as int),
{
    let needle = login_shell_path_marker();
    let total = bytes.len();
    let mut k: usize = 0;
    while k < 20
        invariant
            k <= 20,
            total == bytes@.len(),
            needle@ == marker(),
            needle@.len() == 20,
            at + 20 <= bytes@.len(),
            forall|j: int| 0 <= j < k ==> bytes@[at + j] == needle@[j],
        decreases 20 - k,
    {
        if bytes[at + k] != needle[k] {
            assert(bytes@.subrange(at as int, at + needle@.len())[k as int] != needle@[k as int]);
            return false;
        }
        k += 1;
    }
    assert(bytes@.subrange(at as int, at + needle@.len()) =~= needle@);
    true
}

/// Extracts the PATH printed by the login-shell probe.
pub fn parse_login_shell_path(output: &[u8]) -> (path: Option<Vec<u8>>)
    ensures
        match path {
            Some(path) => login_shell_path_spec(output@) == Some(path@),
            None => login_shell_path_spec(output@) is None,
        },
{
    let width: usize = 20;
    if output.len() < width {
        assert(last_occurrence(output@, marker(), output@.len() - marker().len()) is None);
        return None;
    }
    let mut at = output.len() - width;
    let found: usize;
    loop
        invariant
            at + width <= output@.len(),
            width == marker().len(),
            last_occurrence(output@, marker(), output@.len() - marker().len())
                == last_occurrence(output@, marker(), at as int),
        ensures
            found + width <= output@.len(),
            last_occurrence(output@, marker(), output@.len() - marker().len()) == Some(
                found as int,
            ),
        decreases at,
    {
        if occurs_here(output, at) {
            found = at;
            break;
        }
        if at == 0 {
            assert(last_occurrence(output@, marker(), -1) is None);
            return None;
        }
        at -= 1;
    }
    let start = found + width;
    let mut end = start;
    while end < output.len() && output[end] != 10
        invariant
            start <= end <= output@.len(),
            line_end(output@, start as int) == line_end(output@, end as int),
        decreases output@.len() - end,
    {
        end += 1;
    }
    if end > start {
        let mut value: Vec<u8> = Vec::new();
        let mut position = start;
        while position < end
            invariant
                start <= position <= end <= output@.len(),
                value@ == output@.subrange(start as int, position as int),
            decreases end - position,
        {
            value.push(output[position]);
            assert(output@.subrange(start as int, position + 1) =~= output@.subrange(
                start as int,
                position as int,
            ).push(output@[position as int]));
            position += 1;
        }
        Some(value)
    } else {
        None
    }
}

/// The process group to signal for a child: the negated pid, when the pid is
/// a positive `i32`.
pub open spec fn process_group_spec(pid: u32) -> Option<i32> {
    if 0 < pid <= i32::MAX {
        Some(-(pid as int) as i32)
    } else {
        None
    }
}

/// Which process group `kill` should target for the child `pid`.
pub fn process_group_target(pid: u32) -> (group: Option<i32>)
    ensures
        group == process_group_spec(pid),
{
    if pid > 0 && pid <= 0x7fff_ffff {
        Some(-(pid as i32))
    } else {
        None
    }
}

/// The Codex executable name used when it is not found on the PATH.
pub fn default_codex_executable() -> (name: String)
    ensures
        name@ == "codex"@,
{
    owned("codex")
}

/// Whether `entry` names the same path as one of `kept`, comparing
/// components as `PathBuf` equality does.
pub open spec fn names_kept(kept: Seq<Seq<char>>, entry: Seq<char>) -> bool {
    exists|i: int| 0 <= i < kept.len() && path_components(#[trigger] kept[i]) == path_components(entry)
}

/// The entries in order with empty ones and repeats of an earlier path
/// dropped.
pub open spec fn dedup_entries(entries: Seq<Seq<char>>) -> Seq<Seq<char>>
    decreases entries.len(),
{
    if entries.len() == 0 {
        Seq::empty()
    } else {
        let kept = dedup_entries(entries.drop_last());
        let entry = entries.last();
        if entry.len() == 0 || names_kept(kept, entry) {
            kept
        } else {
            kept.push(entry)
        }
    }
}

/// The PATH entries kept are never empty, and no two of them name the
/// same path.
pub proof fn lemma_dedup_entries_distinct(entries: Seq<Seq<char>>)
    ensures
        forall|i: int| 0 <= i < dedup_entries(entries).len() ==> #[trigger] dedup_entries(entries)[i].len() > 0,
        forall|i: int, j: int|
            0 <= i < j < dedup_entries(entries).len() ==> path_components(
                #[trigger] dedup_entries(entries)[i],
            ) != path_components(#[trigger] dedup_entries(entries)[j]),
    decreases entries.len(),
{
    if entries.len() > 0 {
        lemma_dedup_entries_distinct(entries.drop_last());
        let kept = dedup_entries(entries.drop_last());
        let entry = entries.last();
        if !(entry.len() == 0 || names_kept(kept, entry)) {
            let all = kept.push(entry);
            assert forall|i: int, j: int| 0 <= i < j < all.len() implies path_components(
                #[trigger] all[i],
            ) != path_components(#[trigger] all[j]) by {
                if j == kept.len() {
                    assert(all[i] == kept[i]);
                    if path_components(kept[i]) == path_components(entry) {
                        assert(names_kept(kept, entry));
                    }
                } else {
                    assert(all[i] == kept[i] && all[j] == kept[j]);
                }
            }
        }
    }
}

/// What was kept from a shorter list stays, in order, at the front.
proof fn lemma_dedup_prefix(entries: Seq<Seq<char>>, n: int)
    requires
        0 <= n <= entries.len(),
    ensures
        dedup_entries(entries.take(n)).len() <= dedup_entries(entries).len(),
        dedup_entries(entries).take(dedup_entries(entries.take(n)).len() as int) == dedup_entries(
            entries.take(n),
        ),
    decreases entries.len(),
{
    if n == entries.len() {
        assert(entries.take(n) =~= entries);
        assert(dedup_entries(entries).take(dedup_entries(entries).len() as int) =~= dedup_entries(
            entries,
        ));
    } else {
        let front = entries.drop_last();
        assert(front.take(n) =~= entries.take(n));
        lemma_dedup_prefix(front, n);
        let short = dedup_entries(entries.take(n));
        let kept = dedup_entries(front);
        assert(dedup_entries(entries).take(short.len() as int) =~= kept.take(short.len() as int));
    }
}

/// A path named by an entry stays named after the list grows.
proof fn lemma_names_kept_grows(kept: Seq<Seq<char>>, more: Seq<Seq<char>>, entry: Seq<char>)
    requires
        names_kept(kept, entry),
        more.len() >= kept.len(),
        more.take(kept.len() as int) == kept,
    ensures
        names_kept(more, entry),
{
    let i = choose|i: int| 0 <= i < kept.len() && path_components(#[trigger] kept[i]) == path_components(entry);
    assert(more[i] == more.take(kept.len() as int)[i]);
}

/// Every non-empty entry names a path that is kept.
proof fn lemma_dedup_names(entries: Seq<Seq<char>>, k: int)
    requires
        0 <= k < entries.len(),
        entries[k].len() > 0,
    ensures
        names_kept(dedup_entries(entries), entries[k]),
    decreases entries.len(),
{
    let front = entries.drop_last();
    let kept = dedup_entries(front);
    let whole = dedup_entries(entries);
    assert(entries.take(front.len() as int) =~= front);
    lemma_dedup_prefix(entries, front.len() as int);
    if k == entries.len() - 1 {
        if names_kept(kept, entries[k]) {
            lemma_names_kept_grows(kept, whole, entries[k]);
        } else {
            assert(whole == kept.push(entries[k]));
            assert(path_components(whole[kept.len() as int]) == path_components(entries[k]));
        }
    } else {
        assert(front[k] == entries[k]);
        lemma_dedup_names(front, k);
        lemma_names_kept_grows(kept, whole, entries[k]);
    }
}

/// The PATH for Codex, built from a login shell's entries `login, shared`
/// and inherited entries `shared, inherited` naming three different paths,
/// starts with `login`, `shared`, `inherited` in that order, holds `shared`
/// once, names every non-empty entry of its sources (the `.bun/bin` tool
/// directory under the home directory and `/opt/homebrew/bin` among them),
/// and has no empty or repeated entry.
pub proof fn lemma_command_path_prefers_login_shell(
    login: Seq<char>,
    shared: Seq<char>,
    inherited: Seq<char>,
    home: Seq<char>,
    node_version_bins: Seq<Seq<char>>,
)
    requires
        login.len() > 0,
        shared.len() > 0,
        inherited.len() > 0,
        path_components(login) != path_components(shared),
        path_components(login) != path_components(inherited),
        path_components(shared) != path_components(inherited),
    ensures
        ({
            let e = command_path_entries_spec(
                seq![login, shared],
                seq![shared, inherited],
                Some(home),
                node_version_bins,
            );
            let sources = seq![login, shared] + seq![shared, inherited] + (home_tool_directories(home)
                + node_version_bins) + system_directories();
            &&& e.len() >= 3
            &&& e[0] == login
            &&& e[1] == shared
            &&& e[2] == inherited
            &&& forall|j: int| 0 <= j < e.len() && j != 1 ==> #[trigger] e[j] != shared
            &&& forall|k: int| 0 <= k < sources.len() && (#[trigger] sources[k]).len() > 0
                ==> names_kept(e, sources[k])
            &&& names_kept(e, join_path(home, ".bun/bin"@))
            &&& names_kept(e, "/opt/homebrew/bin"@)
            &&& forall|j: int| 0 <= j < e.len() ==> (#[trigger] e[j]).len() > 0
            &&& forall|i: int, j: int|
                0 <= i < j < e.len() ==> path_components(#[trigger] e[i]) != path_components(
                    #[trigger] e[j],
                )
        }),
{
    let sources = seq![login, shared] + seq![shared, inherited] + (home_tool_directories(home)
        + node_version_bins) + system_directories();
    let e = dedup_entries(sources);
    assert(command_path_entries_spec(seq![login, shared], seq![shared, inherited], Some(home), node_version_bins) == e);
    lemma_dedup_entries_distinct(sources);
    // The first four entries keep three paths.
    let p1 = sources.take(1);
    let p2 = sources.take(2);
    let p3 = sources.take(3);
    let p4 = sources.take(4);
    assert(p1.drop_last() =~= Seq::<Seq<char>>::empty());
    assert(p2.drop_last() =~= p1);
    assert(p3.drop_last() =~= p2);
    assert(p4.drop_last() =~= p3);
    assert(p1.last() == login && p2.last() == shared && p3.last() == shared && p4.last() == inherited);
    assert(p1.len() == 1);
    assert(dedup_entries(p1.drop_last()) =~= Seq::<Seq<char>>::empty());
    assert(!names_kept(Seq::<Seq<char>>::empty(), login));
    assert(dedup_entries(p1) =~= seq![login]);
    assert(!names_kept(seq![login], shared)) by {
        assert(seq![login][0] == login);
    }
    assert(dedup_entries(p2) =~= seq![login, shared]);
    assert(names_kept(seq![login, shared], shared)) by {
        assert(seq![login, shared][1] == shared);
    }
    assert(dedup_entries(p3) =~= seq![login, shared]);
    assert(!names_kept(seq![login, shared], inherited)) by {
        assert(seq![login, shared][0] == login);
        assert(seq![login, shared][1] == shared);
    }
    assert(dedup_entries(p4) =~= seq![login, shared, inherited]);
    lemma_dedup_prefix(sources, 4);
    assert(e.take(3) == seq![login, shared, inherited]);
    assert(e[0] == e.take(3)[0] && e[1] == e.take(3)[1] && e[2] == e.take(3)[2]);
    assert forall|j: int| 0 <= j < e.len() && j != 1 implies #[trigger] e[j] != shared by {
        if e[j] == shared {
            if j == 0 {
                assert(path_components(e[0]) != path_components(e[1]));
            } else {
                assert(path_components(e[1]) != path_components(e[j]));
            }
        }
    }
    assert forall|k: int| 0 <= k < sources.len() && (#[trigger] sources[k]).len() > 0 implies names_kept(
        e,
        sources[k],
    ) by {
        lemma_dedup_names(sources, k);
    }
    reveal_strlit(".bun/bin");
    reveal_strlit("/opt/homebrew/bin");
    assert(sources[4] == join_path(home, ".bun/bin"@));
    assert(join_path(home, ".bun/bin"@).len() > 0);
    let system_start = sources.len() - 6;
    assert(sources[system_start] == "/opt/homebrew/bin"@);
    assert(("/opt/homebrew/bin"@).len() > 0);
}

/// Drops empty entries and every repeat of an earlier path.
pub fn dedup_path_entries(entries: &Vec<String>) -> (kept: Vec<String>)
    ensures
        kept.deep_view() == dedup_entries(entries.deep_view()),
{
    let ghost view = entries.deep_view();
    let mut kept: Vec<String> = Vec::new();
    let mut kept_components: Vec<Vec<String>> = Vec::new();
    let mut index: usize = 0;
    while index < entries.len()
        invariant
            index <= entries@.len(),
            view == entries.deep_view(),
            view.len() == entries@.len(),
            kept.deep_view() == dedup_entries(view.take(index as int)),
            kept_components@.len() == kept@.len(),
            forall|i: int|
                0 <= i < kept@.len() ==> #[trigger] kept_components@[i].deep_view()
                    == path_components(kept.deep_view()[i]),
        decreases entries@.len() - index,
    {
        assert(view.take(index + 1).drop_last() =~= view.take(index as int));
        assert(view[index as int] == entries@[index as int]@);
        let entry = entries[index].as_str();
        let empty = chars_of(entry).len() == 0;
        let components = crate::manifest::components_vector(entry);
        let mut seen = false;
        let mut k: usize = 0;
        while k < kept_components.len() && !seen
            invariant
                k <= kept_components@.len(),
                kept_components@.len() == kept@.len(),
                seen ==> names_kept(kept.deep_view(), entry@),
                !seen ==> forall|j: int|
                    0 <= j < k ==> path_components(#[trigger] kept.deep_view()[j])
                        != path_components(entry@),
                forall|i: int|
                    0 <= i < kept@.len() ==> #[trigger] kept_components@[i].deep_view()
                        == path_components(kept.deep_view()[i]),
                components.deep_view() == path_components(entry@),
            decreases kept_components@.len() - k,
        {
            if same_components(&kept_components[k], &components) {
                assert(path_components(kept.deep_view()[k as int]) == path_components(entry@));
                seen = true;
            }
            k += 1;
        }
        if !empty && !seen {
            let ghost before = kept.deep_view();
            push_string(&mut kept, entries[index].clone());
            kept_components.push(components);
            assert forall|i: int| 0 <= i < kept@.len() implies #[trigger] kept_components@[i].deep_view()
                == path_components(kept.deep_view()[i]) by {
                if i < before.len() {
                    assert(kept.deep_view()[i] == before[i]);
                }
            }
        }
        index += 1;
    }
    assert(view.take(entries@.len() as int) =~= view);
    kept
}

fn same_components(a: &Vec<String>, b: &Vec<String>) -> (same: bool)
    ensures
        same == (a.deep_view() == b.deep_view()),
{
    assert(a.deep_view().len() == a@.len());
    assert(b.deep_view().len() == b@.len());
    if a.len() != b.len() {
        return false;
    }
    let mut index: usize = 0;
    while index < a.len()
        invariant
            index <= a@.len(),
            a@.len() == b@.len(),
            forall|i: int| 0 <= i < index ==> a.deep_view()[i] == b.deep_view()[i],
        decreases a@.len() - index,
    {
        if !same_text(a[index].as_str(), b[index].as_str()) {
            assert(a.deep_view()[index as int] != b.deep_view()[index as int]);
            return false;
        }
        index += 1;
    }
    assert(a.deep_view() =~= b.deep_view());
    true
}

/// Tool directories under the home directory where a Codex CLI may live.
pub open spec fn home_tool_directories(home: Seq<char>) -> Seq<Seq<char>> {
    seq![
        join_path(home, ".bun/bin"@),
        join_path(home, ".local/bin"@),
        join_path(home, ".cargo/bin"@),
        join_path(home, ".volta/bin"@),
        join_path(home, ".npm-global/bin"@),
        join_path(home, "Library/pnpm"@),
    ]
}

/// The system directories searched last.
pub open spec fn system_directories() -> Seq<Seq<char>> {
    seq!["/opt/homebrew/bin"@, "/usr/local/bin"@, "/usr/bin"@, "/bin"@, "/usr/sbin"@, "/sbin"@]
}

/// The PATH entries for the Codex CLI, in priority order: the login shell's,
/// the inherited ones, tool directories under the home directory, installed
/// Node versions, then the system directories; without empty entries or
/// repeats.
pub open spec fn command_path_entries_spec(
    login_shell: Seq<Seq<char>>,
    inherited: Seq<Seq<char>>,
    home: Option<Seq<char>>,
    node_version_bins: Seq<Seq<char>>,
) -> Seq<Seq<char>> {
    dedup_entries(
        login_shell + inherited + (match home {
            Some(home) => home_tool_directories(home) + node_version_bins,
            None => Seq::empty(),
        }) + system_directories(),
    )
}

/// Builds the PATH entries for the Codex CLI from their sources.
pub fn command_path_entries(
    login_shell: &Vec<String>,
    inherited: &Vec<String>,
    home: Option<&str>,
    node_version_bins: &Vec<String>,
) -> (entries: Vec<String>)
    ensures
        entries.deep_view() == command_path_entries_spec(
            login_shell.deep_view(),
            inherited.deep_view(),
            match home {
                Some(home) => Some(home@),
                None => None,
            },
            node_version_bins.deep_view(),
        ),
        forall|i: int| 0 <= i < entries@.len() ==> (#[trigger] entries@[i])@.len() > 0,
        forall|i: int, j: int|
            0 <= i < j < entries@.len() ==> path_components((#[trigger] entries@[i])@)
                != path_components((#[trigger] entries@[j])@),
{
    let mut all: Vec<String> = Vec::new();
    append_copies(&mut all, login_shell);
    append_copies(&mut all, inherited);
    let ghost before_home = all.deep_view();
    match home {
        Some(home) => {
            let mut tools: Vec<String> = Vec::new();
            push_string(&mut tools, join_path_text(home, ".bun/bin"));
            push_string(&mut tools, join_path_text(home, ".local/bin"));
            push_string(&mut tools, join_path_text(home, ".cargo/bin"));
            push_string(&mut tools, join_path_text(home, ".volta/bin"));
            push_string(&mut tools, join_path_text(home, ".npm-global/bin"));
            push_string(&mut tools, join_path_text(home, "Library/pnpm"));
            assert(tools.deep_view() =~= home_tool_directories(home@));
            append_copies(&mut all, &tools);
            append_copies(&mut all, node_version_bins);
        },
        None => {},
    }
    let mut system: Vec<String> = Vec::new();
    push_string(&mut system, owned("/opt/homebrew/bin"));
    push_string(&mut system, owned("/usr/local/bin"));
    push_string(&mut system, owned("/usr/bin"));
    push_string(&mut system, owned("/bin"));
    push_string(&mut system, owned("/usr/sbin"));
    push_string(&mut system, owned("/sbin"));
    assert(system.deep_view() =~= system_directories());
    append_copies(&mut all, &system);
    assert(all.deep_view() =~= login_shell.deep_view() + inherited.deep_view() + (match home {
        Some(home) => home_tool_directories(home@) + node_version_bins.deep_view(),
        None => Seq::empty(),
    }) + system_directories());
    let entries = dedup_path_entries(&all);
    proof {
        let kept = dedup_entries(all.deep_view());
        lemma_dedup_entries_distinct(all.deep_view());
        assert(entries.deep_view() == kept);
        assert forall|i: int| 0 <= i < entries@.len() implies (#[trigger] entries@[i])@.len() > 0 by {
            assert(entries.deep_view()[i] == entries@[i]@);
            assert(kept[i].len() > 0);
        }
        assert forall|i: int, j: int| 0 <= i < j < entries@.len() implies path_components(
            (#[trigger] entries@[i])@,
        ) != path_components((#[trigger] entries@[j])@) by {
            assert(entries.deep_view()[i] == entries@[i]@);
            assert(entries.deep_view()[j] == entries@[j]@);
            assert(path_components(kept[i]) != path_components(kept[j]));
        }
    }
    entries
}

fn append_copies(list: &mut Vec<String>, tail: &Vec<String>)
    ensures
        final(list).deep_view() == old(list).deep_view() + tail.deep_view(),
{
    let ghost start = list.deep_view();
    let mut index: usize = 0;
    while index < tail.len()
        invariant
            index <= tail@.len(),
            list.deep_view() == start + tail.deep_view().take(index as int),
        decreases tail@.len() - index,
    {
        push_string(list, tail[index].clone());
        assert(tail.deep_view().take(index + 1) =~= tail.deep_view().take(index as int).push(
            tail@[index as int]@,
        ));
        assert(list.deep_view() =~= start + tail.deep_view().take(index + 1));
        index += 1;
    }
    assert(tail.deep_view().take(tail@.len() as int) =~= tail.deep_view());
}

} // verus!
