//! The tree renderer: turns a directory snapshot into the connector-annotated
//! text listing, one line per visited entry.

use vstd::prelude::*;

use crate::order::compute_order;
use crate::order::lemma_files_excluded;
use crate::order::order_of;
use crate::tree::spec_message;
use crate::tree::DirectoryEntry;
use crate::tree::TreeError;

verus! {

/// The connector glyph before an entry's name: the terminal glyph for the
/// last entry of its level, the continuation glyph for every other entry.
pub open spec fn connector(is_last: bool) -> Seq<char> {
    if is_last {
        seq!['└', '─', '─', ' ']
    } else {
        seq!['├', '─', '─', ' ']
    }
}

/// What an entry adds to the prefix its children inherit: blank indentation
/// below a last entry, a vertical continuation below every other entry.
pub open spec fn prefix_extension(is_last: bool) -> Seq<char> {
    if is_last {
        seq![' ', ' ', ' ', ' ']
    } else {
        seq!['│', ' ', ' ', ' ']
    }
}

/// The line rendered for the entry named `name` at position `k` of a level
/// of `n` entries, under the inherited `prefix`.
pub open spec fn entry_line(name: Seq<char>, prefix: Seq<char>, k: int, n: int) -> Seq<char> {
    prefix + connector(k == n - 1) + name + seq!['\n']
}

/// The text contributed by the entries of `es` that `order[k..]` selects:
/// each entry's own line, followed immediately by the recursive listing of
/// its children when it is a directory.
pub open spec fn render_level(
    es: Seq<DirectoryEntry>,
    order: Seq<usize>,
    k: int,
    prefix: Seq<char>,
    include_files: bool,
) -> Seq<char>
    decreases es, order.len() - k,
{
    if k < 0 || k >= order.len() {
        Seq::empty()
    } else if order[k] as int >= es.len() {
        render_level(es, order, k + 1, prefix, include_files)
    } else {
        let child = es[order[k] as int];
        let line = entry_line(child.name@, prefix, k, order.len() as int);
        let sub = if child.is_directory {
            render_level(
                child.children@,
                order_of(child.children@, include_files),
                0,
                prefix + prefix_extension(k == order.len() - 1),
                include_files,
            )
        } else {
            Seq::empty()
        };
        line + sub + render_level(es, order, k + 1, prefix, include_files)
    }
}

/// The full recursive listing of a directory's children under an inherited
/// prefix, in render order.
pub open spec fn render_listing(
    children: Seq<DirectoryEntry>,
    prefix: Seq<char>,
    include_files: bool,
) -> Seq<char> {
    render_level(children, order_of(children, include_files), 0, prefix, include_files)
}

/// The complete output for a validated directory: the root's own name line
/// when the path has an extractable base name, then the recursive listing
/// with an empty initial prefix.
pub open spec fn tree_text(
    root_name: Option<Seq<char>>,
    children: Seq<DirectoryEntry>,
    include_files: bool,
) -> Seq<char> {
    (match root_name {
        Some(n) => n + seq!['\n'],
        None => Seq::empty(),
    }) + render_listing(children, Seq::empty(), include_files)
}

/// The view of an optional root name.
pub open spec fn opt_name_view(o: Option<String>) -> Option<Seq<char>> {
    match o {
        Some(n) => Some(n@),
        None => None,
    }
}

fn connector_str(is_last: bool) -> (r: &'static str)
    ensures
        r@ == connector(is_last),
{
    if is_last {
        let s = "└── ";
        proof {
            reveal_strlit("└── ");
            assert(s@ =~= connector(true));
        }
        s
    } else {
        let s = "├── ";
        proof {
            reveal_strlit("├── ");
            assert(s@ =~= connector(false));
        }
        s
    }
}

fn extension_str(is_last: bool) -> (r: &'static str)
    ensures
        r@ == prefix_extension(is_last),
{
    if is_last {
        let s = "    ";
        proof {
            reveal_strlit("    ");
            assert(s@ =~= prefix_extension(true));
        }
        s
    } else {
        let s = "│   ";
        proof {
            reveal_strlit("│   ");
            assert(s@ =~= prefix_extension(false));
        }
        s
    }
}

/// Renders the listing of `children` under `prefix`.
fn build_level(children: &Vec<DirectoryEntry>, prefix: &String, include_files: bool) -> (out:
    String)
    ensures
        out@ == render_listing(children@, prefix@, include_files),
    decreases children@,
{
    let order = compute_order(children, include_files);
    let mut out = String::new();
    let n = order.len();
    proof {
        assert(Seq::<char>::empty() + render_level(
            children@,
            order@,
            0,
            prefix@,
            include_files,
        ) =~= render_level(children@, order@, 0, prefix@, include_files));
    }
    let mut k: usize = 0;
    while k < n
        invariant
            n == order@.len(),
            k <= n,
            order@ == order_of(children@, include_files),
            forall|t: int|
                0 <= t < order@.len() ==> (#[trigger] order@[t] as int) < children@.len(),
            out@ + render_level(children@, order@, k as int, prefix@, include_files)
                == render_level(children@, order@, 0, prefix@, include_files),
        decreases n - k,
    {
        let idx = order[k];
        let child = &children[idx];
        let is_last = k == n - 1;
        let ghost pre_out = out@;
        out.append(prefix.as_str());
        out.append(connector_str(is_last));
        out.append(child.name.as_str());
        out.append("\n");
        proof {
            reveal_strlit("\n");
            assert("\n"@ =~= seq!['\n']);
            assert(out@ =~= pre_out + entry_line(child.name@, prefix@, k as int, n as int));
        }
        if child.is_directory {
            let mut child_prefix = prefix.clone();
            child_prefix.append(extension_str(is_last));
            proof {
                assert(decreases_to!(children@ => child.children@)) by {
                    assert(decreases_to!(children@ => children@[idx as int]));
                }
            }
            let sub = build_level(&child.children, &child_prefix, include_files);
            out.append(sub.as_str());
            proof {
                assert(out@ =~= pre_out + (entry_line(child.name@, prefix@, k as int, n as int)
                    + sub@));
            }
        }
        proof {
            assert(out@ + render_level(children@, order@, k as int + 1, prefix@, include_files)
                =~= pre_out + render_level(children@, order@, k as int, prefix@, include_files));
        }
        k = k + 1;
    }
    proof {
        assert(out@ + render_level(children@, order@, n as int, prefix@, include_files) =~= out@);
    }
    out
}

/// Renders the complete tree text for a validated directory snapshot:
/// the root's base name line (when there is one), then the ordered,
/// connector-annotated recursive listing.
pub fn render_tree(
    root_name: &Option<String>,
    children: &Vec<DirectoryEntry>,
    include_files: bool,
) -> (out: String)
    ensures
        out@ == tree_text(opt_name_view(*root_name), children@, include_files),
{
    let mut out = String::new();
    match root_name {
        Some(name) => {
            out.append(name.as_str());
            out.append("\n");
            proof {
                reveal_strlit("\n");
                assert("\n"@ =~= seq!['\n']);
            }
        },
        None => {},
    }
    let empty_prefix = String::new();
    let listing = build_level(children, &empty_prefix, include_files);
    out.append(listing.as_str());
    proof {
        assert(out@ =~= tree_text(opt_name_view(*root_name), children@, include_files));
    }
    out
}

/// The boundary operation: decides the outcome of a tree request from the
/// validated facts about the path and renders the snapshot on success. The
/// call fails exactly when the path does not exist or is not a directory,
/// with the message of the corresponding [`TreeError`].
pub fn render_directory_tree(
    path: &String,
    exists: bool,
    is_directory: bool,
    root_name: &Option<String>,
    entries: &Vec<DirectoryEntry>,
    include_files: bool,
) -> (r: Result<String, String>)
    ensures
        r is Ok <==> exists && is_directory,
        !exists ==> (r matches Err(m) && m@ == spec_message(
            TreeError::PathNotFound { path: *path },
        )),
        exists && !is_directory ==> (r matches Err(m) && m@ == spec_message(
            TreeError::NotADirectory { path: *path },
        )),
        exists && is_directory ==> (r matches Ok(out) && out@ == tree_text(
            opt_name_view(*root_name),
            entries@,
            include_files,
        )),
{
    match crate::validate::classify_path(path, exists, is_directory) {
        Ok(()) => Ok(render_tree(root_name, entries, include_files)),
        Err(e) => Err(e.message()),
    }
}

/// The output's first line equals the root directory's base name, when one
/// exists: the name's characters come first, none of them is a newline, and
/// the first newline of the output stands directly after them.
pub proof fn lemma_first_line_is_root_name(
    name: Seq<char>,
    children: Seq<DirectoryEntry>,
    include_files: bool,
)
    requires
        !name.contains('\n'),
    ensures
        tree_text(Some(name), children, include_files).len() > name.len(),
        tree_text(Some(name), children, include_files).subrange(0, name.len() as int) == name,
        tree_text(Some(name), children, include_files)[name.len() as int] == '\n',
        forall|j: int|
            0 <= j < name.len() ==> tree_text(Some(name), children, include_files)[j] != '\n',
{
    let out = tree_text(Some(name), children, include_files);
    assert(out.subrange(0, name.len() as int) =~= name);
    assert forall|j: int| 0 <= j < name.len() implies out[j] != '\n' by {
        assert(out[j] == name[j]);
    }
}

/// At every directory level, the terminal connector marks exactly the final
/// entry: the line at position `k` of a level of `n` entries carries the
/// terminal glyph if and only if `k` is the last position, and the
/// continuation glyph otherwise.
pub proof fn lemma_terminal_connector_exactly_last(
    name: Seq<char>,
    prefix: Seq<char>,
    k: int,
    n: int,
)
    requires
        0 <= k < n,
    ensures
        (entry_line(name, prefix, k, n) == prefix + connector(true) + name + seq!['\n']) <==> k == n
            - 1,
        (entry_line(name, prefix, k, n) == prefix + connector(false) + name + seq!['\n']) <==> k
            != n - 1,
{
    let terminal = prefix + connector(true) + name + seq!['\n'];
    let continuation = prefix + connector(false) + name + seq!['\n'];
    assert(terminal[prefix.len() as int] == '└');
    assert(continuation[prefix.len() as int] == '├');
    assert('└' != '├');
}

/// A level's text is its entries' lines in render order, each followed
/// directly by the recursive listing of the entry's children when the entry
/// is a directory; together with
/// [`lemma_terminal_connector_exactly_last`] this places the terminal
/// connector on exactly the last line of every level.
pub proof fn lemma_level_structure(
    es: Seq<DirectoryEntry>,
    order: Seq<usize>,
    k: int,
    prefix: Seq<char>,
    include_files: bool,
)
    requires
        0 <= k < order.len(),
        (order[k] as int) < es.len(),
    ensures
        render_level(es, order, k, prefix, include_files) == entry_line(
            es[order[k] as int].name@,
            prefix,
            k,
            order.len() as int,
        ) + (if es[order[k] as int].is_directory {
            render_level(
                es[order[k] as int].children@,
                order_of(es[order[k] as int].children@, include_files),
                0,
                prefix + prefix_extension(k == order.len() - 1),
                include_files,
            )
        } else {
            Seq::empty()
        }) + render_level(es, order, k + 1, prefix, include_files),
{
}

/// Rendering is deterministic: the output is a function of the snapshot and
/// the inclusion policy alone, so rendering an unchanged tree twice yields
/// byte-identical output.
pub proof fn lemma_render_deterministic(
    root_name: Option<Seq<char>>,
    children: Seq<DirectoryEntry>,
    include_files: bool,
    first: Seq<char>,
    second: Seq<char>,
)
    requires
        first == tree_text(root_name, children, include_files),
        second == tree_text(root_name, children, include_files),
    ensures
        first == second,
{
}

/// Whether every vector of children in the hierarchy below the entries of
/// `es[k..]` is small enough to index, as every vector a caller can actually
/// build is.
pub open spec fn snapshot_bounded(es: Seq<DirectoryEntry>, k: int) -> bool
    decreases es, es.len() - k,
{
    if k < 0 || k >= es.len() {
        true
    } else {
        &&& es[k].children@.len() <= usize::MAX
        &&& snapshot_bounded(es[k].children@, 0)
        &&& snapshot_bounded(es, k + 1)
    }
}

/// The names of all directories in the hierarchy below the entries of
/// `es[k..]`, at every depth.
pub open spec fn directory_names(es: Seq<DirectoryEntry>, k: int) -> Set<Seq<char>>
    decreases es, es.len() - k,
{
    if k < 0 || k >= es.len() {
        Set::empty()
    } else {
        (if es[k].is_directory {
            set![es[k].name@].union(directory_names(es[k].children@, 0))
        } else {
            Set::empty()
        }).union(directory_names(es, k + 1))
    }
}

/// The individual lines of [`render_level`], in render order: the whole
/// subtree traversal, one line per visited entry.
pub open spec fn level_lines(
    es: Seq<DirectoryEntry>,
    order: Seq<usize>,
    k: int,
    prefix: Seq<char>,
    include_files: bool,
) -> Seq<Seq<char>>
    decreases es, order.len() - k,
{
    if k < 0 || k >= order.len() {
        Seq::empty()
    } else if order[k] as int >= es.len() {
        level_lines(es, order, k + 1, prefix, include_files)
    } else {
        let child = es[order[k] as int];
        seq![entry_line(child.name@, prefix, k, order.len() as int)] + (if child.is_directory {
            level_lines(
                child.children@,
                order_of(child.children@, include_files),
                0,
                prefix + prefix_extension(k == order.len() - 1),
                include_files,
            )
        } else {
            Seq::empty()
        }) + level_lines(es, order, k + 1, prefix, include_files)
    }
}

/// Whether `line` is a tree line whose name is one of `names`: some prefix,
/// a connector glyph, a name out of `names`, a newline.
pub open spec fn line_carries_name_of(line: Seq<char>, names: Set<Seq<char>>) -> bool {
    exists|p: Seq<char>, last: bool, name: Seq<char>|
        #![trigger p + connector(last) + name]
        line == (p + connector(last) + name) + seq!['\n'] && names.contains(name)
}

proof fn lemma_directory_names_member(es: Seq<DirectoryEntry>, k: int, i: int)
    requires
        0 <= k <= i < es.len(),
        es[i].is_directory,
    ensures
        directory_names(es, k).contains(es[i].name@),
        directory_names(es[i].children@, 0).subset_of(directory_names(es, k)),
    decreases i - k,
{
    if k == i {
        assert(set![es[i].name@].contains(es[i].name@));
    } else {
        lemma_directory_names_member(es, k + 1, i);
    }
}

proof fn lemma_snapshot_bounded_at(es: Seq<DirectoryEntry>, k: int, i: int)
    requires
        snapshot_bounded(es, k),
        0 <= k <= i < es.len(),
    ensures
        es[i].children@.len() <= usize::MAX,
        snapshot_bounded(es[i].children@, 0),
    decreases i - k,
{
    if k < i {
        lemma_snapshot_bounded_at(es, k + 1, i);
    }
}

/// A level's text is exactly its lines, concatenated.
pub proof fn lemma_render_level_flattens(
    es: Seq<DirectoryEntry>,
    order: Seq<usize>,
    k: int,
    prefix: Seq<char>,
    include_files: bool,
)
    ensures
        render_level(es, order, k, prefix, include_files) == level_lines(
            es,
            order,
            k,
            prefix,
            include_files,
        ).flatten(),
    decreases es, order.len() - k,
{
    let lines = level_lines(es, order, k, prefix, include_files);
    if k < 0 || k >= order.len() {
        assert(lines.flatten() =~= Seq::<char>::empty());
    } else if order[k] as int >= es.len() {
        lemma_render_level_flattens(es, order, k + 1, prefix, include_files);
    } else {
        let child = es[order[k] as int];
        let line = entry_line(child.name@, prefix, k, order.len() as int);
        let sub_lines = if child.is_directory {
            level_lines(
                child.children@,
                order_of(child.children@, include_files),
                0,
                prefix + prefix_extension(k == order.len() - 1),
                include_files,
            )
        } else {
            Seq::empty()
        };
        let tail_lines = level_lines(es, order, k + 1, prefix, include_files);
        if child.is_directory {
            lemma_render_level_flattens(
                child.children@,
                order_of(child.children@, include_files),
                0,
                prefix + prefix_extension(k == order.len() - 1),
                include_files,
            );
        } else {
            assert(sub_lines.flatten() =~= Seq::<char>::empty());
        }
        lemma_render_level_flattens(es, order, k + 1, prefix, include_files);
        vstd::seq_lib::lemma_flatten_concat(seq![line] + sub_lines, tail_lines);
        vstd::seq_lib::lemma_flatten_concat(seq![line], sub_lines);
        seq![line].lemma_flatten_one_element();
        assert(seq![line].flatten() =~= line);
        assert(lines == (seq![line] + sub_lines) + tail_lines);
        assert(render_level(es, order, k, prefix, include_files) =~= lines.flatten());
    }
}

proof fn lemma_level_lines_name_directories(
    es: Seq<DirectoryEntry>,
    order: Seq<usize>,
    k: int,
    prefix: Seq<char>,
)
    requires
        snapshot_bounded(es, 0),
        forall|t: int|
            0 <= t < order.len() ==> (#[trigger] order[t] as int) < es.len() && es[order[t]
                as int].is_directory,
    ensures
        forall|j: int|
            0 <= j < level_lines(es, order, k, prefix, false).len() ==> line_carries_name_of(
                #[trigger] level_lines(es, order, k, prefix, false)[j],
                directory_names(es, 0),
            ),
    decreases es, order.len() - k,
{
    let lines = level_lines(es, order, k, prefix, false);
    if k < 0 || k >= order.len() {
    } else {
        let idx = order[k] as int;
        let child = es[idx];
        let child_order = order_of(child.children@, false);
        let child_prefix = prefix + prefix_extension(k == order.len() - 1);
        lemma_snapshot_bounded_at(es, 0, idx);
        lemma_files_excluded(child.children@);
        lemma_level_lines_name_directories(child.children@, child_order, 0, child_prefix);
        lemma_level_lines_name_directories(es, order, k + 1, prefix);
        lemma_directory_names_member(es, 0, idx);
        let line = entry_line(child.name@, prefix, k, order.len() as int);
        let sub_lines = level_lines(child.children@, child_order, 0, child_prefix, false);
        let tail_lines = level_lines(es, order, k + 1, prefix, false);
        assert(lines == (seq![line] + sub_lines) + tail_lines);
        assert forall|j: int| 0 <= j < lines.len() implies line_carries_name_of(
            #[trigger] lines[j],
            directory_names(es, 0),
        ) by {
            if j == 0 {
                assert(lines[j] == line);
                assert(line == (prefix + connector(k == order.len() as int - 1) + child.name@)
                    + seq!['\n']);
                assert(directory_names(es, 0).contains(child.name@));
            } else if j < 1 + sub_lines.len() {
                assert(lines[j] == sub_lines[j - 1]);
                assert(line_carries_name_of(sub_lines[j - 1], directory_names(child.children@, 0)));
                let (p, last, name) = choose|p: Seq<char>, last: bool, name: Seq<char>|
                    #![trigger p + connector(last) + name]
                    sub_lines[j - 1] == (p + connector(last) + name) + seq!['\n']
                        && directory_names(child.children@, 0).contains(name);
                assert(directory_names(es, 0).contains(name));
            } else {
                assert(lines[j] == tail_lines[j - 1 - sub_lines.len()]);
            }
        }
    }
}

/// With files excluded, no file name appears anywhere in the output, at any
/// depth: the listing is exactly the concatenation of its lines, and every
/// line consists of a prefix, a connector glyph, the name of a directory of
/// the hierarchy, and a newline.
pub proof fn lemma_no_file_names_in_output(es: Seq<DirectoryEntry>, prefix: Seq<char>)
    requires
        es.len() <= usize::MAX,
        snapshot_bounded(es, 0),
    ensures
        render_listing(es, prefix, false) == level_lines(
            es,
            order_of(es, false),
            0,
            prefix,
            false,
        ).flatten(),
        forall|j: int|
            0 <= j < level_lines(es, order_of(es, false), 0, prefix, false).len()
                ==> line_carries_name_of(
                #[trigger] level_lines(es, order_of(es, false), 0, prefix, false)[j],
                directory_names(es, 0),
            ),
{
    lemma_files_excluded(es);
    lemma_render_level_flattens(es, order_of(es, false), 0, prefix, false);
    lemma_level_lines_name_directories(es, order_of(es, false), 0, prefix);
}

/// An empty directory yields only the root name line: no connector lines.
pub proof fn lemma_empty_directory(name: Seq<char>, include_files: bool)
    ensures
        tree_text(Some(name), Seq::empty(), include_files) == name + seq!['\n'],
{
    assert(order_of(Seq::<DirectoryEntry>::empty(), include_files) =~= Seq::<usize>::empty());
    assert(render_listing(Seq::<DirectoryEntry>::empty(), Seq::empty(), include_files)
        =~= Seq::<char>::empty());
    assert(tree_text(Some(name), Seq::empty(), include_files) =~= name + seq!['\n']);
}

} // verus!

