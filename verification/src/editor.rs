//! The document model: a text file read as a binary tree in level order, and
//! the documents that are open, by URI.

use vstd::prelude::*;
use vstd::arithmetic::power2::{lemma2_to64, lemma_pow2_pos, lemma_pow2_unfold, pow2};
use vstd::hash_map::StringHashMap;
use vstd::string::*;

verus! {

/// Where the first newline of `s` stands; the length of `s` if it has none.
pub open spec fn first_newline(s: Seq<char>) -> int
    decreases s.len(),
{
    if s.len() == 0 || s[0] == '\n' {
        0
    } else {
        1 + first_newline(s.drop_first())
    }
}

/// A line without the carriage return that may precede its newline.
pub open spec fn strip_cr(line: Seq<char>) -> Seq<char> {
    if line.len() > 0 && line.last() == '\r' {
        line.drop_last()
    } else {
        line
    }
}

/// The lines of a text. A line ends with a newline, or with a carriage return
/// and a newline, neither of which belongs to it; the last line need not end
/// with one.
pub open spec fn lines_of(text: Seq<char>) -> Seq<Seq<char>>
    decreases text.len(),
{
    let k = first_newline(text);
    if text.len() == 0 {
        Seq::empty()
    } else if 0 <= k < text.len() {
        seq![strip_cr(text.subrange(0, k))] + lines_of(text.subrange(k + 1, text.len() as int))
    } else {
        seq![text]
    }
}

/// The width of the line that holds the nodes at depth `d`.
pub open spec fn level_width(d: nat) -> nat {
    (pow2(d + 1) - 1) as nat
}

/// True when `line` can stand at depth `d`: it has the width of that level,
/// or at most that width where it is the last line, and a space at each odd
/// offset.
pub open spec fn line_ok(line: Seq<char>, d: nat, last: bool) -> bool {
    &&& if last {
        line.len() <= level_width(d)
    } else {
        line.len() == level_width(d)
    }
    &&& forall|j: int| 0 <= j < line.len() && j % 2 == 1 ==> line[j] == ' '
}

/// True when every line of `lines` can stand at its depth.
pub open spec fn lines_ok(lines: Seq<Seq<char>>) -> bool {
    forall|d: int| 0 <= d < lines.len() ==> line_ok(#[trigger] lines[d], d as nat, d == lines.len() - 1)
}

/// True when `text` is the text of a tree.
pub open spec fn valid_tree_text(text: Seq<char>) -> bool {
    lines_ok(lines_of(text))
}

/// The labels that a line holds: its characters at even offsets, in order.
pub open spec fn line_labels(line: Seq<char>) -> Seq<Seq<char>> {
    Seq::new(((line.len() + 1) / 2) as nat, |k: int| seq![line[2 * k]])
}

/// The labels of all lines, in level order.
pub open spec fn tree_labels(lines: Seq<Seq<char>>) -> Seq<Seq<char>>
    decreases lines.len(),
{
    if lines.len() == 0 {
        Seq::empty()
    } else {
        tree_labels(lines.drop_last()) + line_labels(lines.last())
    }
}

/// A validated document: the labels of its nodes in level order, the children
/// of node `i` at `2i + 1` and `2i + 2`, and the length of its text.
pub struct Document {
    pub nodes: Seq<Seq<char>>,
    pub char_count: nat,
}

/// The document that a valid text gives.
pub open spec fn document_of(text: Seq<char>) -> Document {
    Document { nodes: tree_labels(lines_of(text)), char_count: text.len() }
}

/// True when `doc` is the document of some valid text.
pub open spec fn is_document(doc: Document) -> bool {
    exists|text: Seq<char>| valid_tree_text(text) && doc == document_of(text)
}

/// The label at `i`, if there is a node.
pub open spec fn node_at(nodes: Seq<Seq<char>>, i: int) -> Option<Seq<char>> {
    if 0 <= i < nodes.len() {
        Some(nodes[i])
    } else {
        None
    }
}

/// The label of the parent of node `i`, if it has one.
pub open spec fn parent_of(nodes: Seq<Seq<char>>, i: int) -> Option<Seq<char>> {
    if i <= 0 {
        None
    } else {
        node_at(nodes, (i - 1) / 2)
    }
}

/// What a lookup gave, as text.
pub open spec fn label_view(label: Option<&String>) -> Option<Seq<char>> {
    match label {
        Some(s) => Some(s@),
        None => None,
    }
}

/// The characters of each line.
pub open spec fn lines_view(lines: Seq<Vec<char>>) -> Seq<Seq<char>> {
    Seq::new(lines.len(), |i: int| lines[i]@)
}

/// The text of each label.
pub open spec fn labels_view(labels: Seq<String>) -> Seq<Seq<char>> {
    Seq::new(labels.len(), |i: int| labels[i]@)
}

proof fn lemma_first_newline(s: Seq<char>, k: int)
    requires
        0 <= k <= s.len(),
        forall|j: int| 0 <= j < k ==> s[j] != '\n',
        k < s.len() ==> s[k] == '\n',
    ensures
        first_newline(s) == k,
    decreases k,
{
    if k > 0 {
        lemma_first_newline(s.drop_first(), k - 1);
    }
}

fn chars_of(s: &str) -> (res: Vec<char>)
    ensures
        res@ == s@,
{
    let mut res: Vec<char> = Vec::new();
    for c in it: s.chars()
        invariant
            it.seq() == s@,
            res@ == s@.take(it.index() as int),
    {
        res.push(c);
        proof {
            assert(s@.take(it.index() + 1) =~= s@.take(it.index() as int).push(c));
        }
    }
    proof {
        assert(s@.take(s@.len() as int) =~= s@);
    }
    res
}

fn split_lines(text: &Vec<char>) -> (res: Vec<Vec<char>>)
    ensures
        lines_view(res@) == lines_of(text@),
{
    let mut lines: Vec<Vec<char>> = Vec::new();
    let mut cur: Vec<char> = Vec::new();
    let ghost mut start: int = 0;
    let mut i: usize = 0;
    proof {
        assert(text@.subrange(0, text@.len() as int) =~= text@);
        assert(lines_view(lines@) + lines_of(text@) =~= lines_of(text@));
    }
    while i < text.len()
        invariant
            0 <= start <= i <= text.len(),
            lines_view(lines@) + lines_of(text@.subrange(start, text@.len() as int)) == lines_of(
                text@,
            ),
            cur@ == text@.subrange(start, i as int),
            forall|j: int| start <= j < i ==> text@[j] != '\n',
        decreases text.len() - i,
    {
        let c = text[i];
        if c == '\n' {
            let ghost tail = text@.subrange(start, text@.len() as int);
            let ghost line = cur@;
            proof {
                lemma_first_newline(tail, i - start);
                assert(tail.subrange(0, i - start) =~= line);
                assert(tail.subrange(i - start + 1, tail.len() as int) =~= text@.subrange(
                    i + 1,
                    text@.len() as int,
                ));
            }
            if cur.len() > 0 && cur[cur.len() - 1] == '\r' {
                cur.pop();
            }
            let ghost before = lines_view(lines@);
            lines.push(cur);
            cur = Vec::new();
            proof {
                assert(lines_view(lines@) =~= before + seq![strip_cr(line)]);
                assert(before + (seq![strip_cr(line)] + lines_of(
                    text@.subrange(i + 1, text@.len() as int),
                )) =~= before + seq![strip_cr(line)] + lines_of(
                    text@.subrange(i + 1, text@.len() as int),
                ));
                start = i + 1;
                assert(cur@ =~= text@.subrange(start, i + 1));
            }
        } else {
            cur.push(c);
            proof {
                assert(cur@ =~= text@.subrange(start, i + 1));
            }
        }
        i = i + 1;
    }
    if cur.len() > 0 {
        let ghost before = lines_view(lines@);
        proof {
            lemma_first_newline(cur@, cur@.len() as int);
        }
        lines.push(cur);
        proof {
            assert(lines_view(lines@) =~= before + seq![text@.subrange(start, text@.len() as int)]);
        }
    } else {
        proof {
            assert(lines_view(lines@) + Seq::<Seq<char>>::empty() =~= lines_view(lines@));
        }
    }
    lines
}

/// The width of the next level, where the machine word holds it. `None`
/// stands for a width that no line can reach.
fn next_width(width: Option<usize>, Ghost(d): Ghost<nat>) -> (res: Option<usize>)
    requires
        match width {
            Some(w) => w == level_width(d),
            None => level_width(d) > usize::MAX,
        },
    ensures
        match res {
            Some(w) => w == level_width(d + 1),
            None => level_width(d + 1) > usize::MAX,
        },
{
    proof {
        lemma_pow2_unfold(d + 2);
        lemma_pow2_pos(d + 1);
    }
    match width {
        Some(w) => if w <= (usize::MAX - 1) / 2 {
            Some(2 * w + 1)
        } else {
            None
        },
        None => None,
    }
}

/// The state of one open file.
pub struct FileState {
    tree: Vec<String>,
    char_count: usize,
}

impl View for FileState {
    type V = Document;

    closed spec fn view(&self) -> Document {
        Document { nodes: labels_view(self.tree@), char_count: self.char_count as nat }
    }
}

impl FileState {
    /// A file state only ever holds the document of a valid text.
    #[verifier::type_invariant]
    spec fn well_formed(&self) -> bool {
        is_document(self@)
    }

    /// Reads `file_content` as a tree: the line at depth `d` holds the nodes of
    /// that depth. Gives nothing where a line has the wrong width or holds
    /// anything but a space at an odd offset.
    pub fn new(file_content: String) -> (res: Option<Self>)
        ensures
            match res {
                Some(fs) => valid_tree_text(file_content@) && fs@ == document_of(file_content@),
                None => !valid_tree_text(file_content@),
            },
    {
        let text = chars_of(file_content.as_str());
        let lines = split_lines(&text);
        let ghost all = lines_of(file_content@);
        let mut tree: Vec<String> = Vec::new();
        let mut width: Option<usize> = Some(1);
        let mut d: usize = 0;
        proof {
            lemma2_to64();
            assert(all.take(0) =~= Seq::<Seq<char>>::empty());
            assert(labels_view(tree@) =~= tree_labels(all.take(0)));
        }
        while d < lines.len()
            invariant
                d <= lines.len(),
                all == lines_view(lines@),
                all == lines_of(file_content@),
                forall|k: int| 0 <= k < d ==> line_ok(#[trigger] all[k], k as nat, k == all.len() - 1),
                labels_view(tree@) == tree_labels(all.take(d as int)),
                match width {
                    Some(w) => w == level_width(d as nat),
                    None => level_width(d as nat) > usize::MAX,
                },
            decreases lines.len() - d,
        {
            let line = &lines[d];
            let last = d + 1 == lines.len();
            proof {
                assert(all[d as int] == line@);
            }
            let n: usize = line.len();
            let fits = match width {
                Some(w) => if last {
                    n <= w
                } else {
                    n == w
                },
                None => last,
            };
            if !fits {
                proof {
                    assert(!line_ok(all[d as int], d as nat, d == all.len() - 1));
                }
                return None;
            }
            let ghost before = labels_view(tree@);
            let mut j: usize = 0;
            proof {
                assert(line_labels(line@).take(0) =~= Seq::<Seq<char>>::empty());
                assert(before + line_labels(line@).take(0) =~= before);
            }
            while j < line.len()
                invariant
                    j <= line.len(),
                    forall|k: int| 0 <= k < j && k % 2 == 1 ==> line@[k] == ' ',
                    labels_view(tree@) == before + line_labels(line@).take((j + 1) / 2),
                    all[d as int] == line@,
                    d < all.len(),
                    all == lines_of(file_content@),
                decreases line.len() - j,
            {
                let c = line[j];
                if j % 2 == 1 {
                    if c != ' ' {
                        proof {
                            assert(!line_ok(all[d as int], d as nat, d == all.len() - 1));
                        }
                        return None;
                    }
                } else {
                    let ghost labels = labels_view(tree@);
                    let mut label = String::new();
                    label.push(c);
                    tree.push(label);
                    proof {
                        assert(label@ =~= seq![c]);
                        assert(labels_view(tree@) =~= labels.push(seq![c]));
                        assert(line_labels(line@).take((j + 2) / 2) =~= line_labels(line@).take(
                            (j + 1) / 2,
                        ).push(seq![c]));
                        assert(labels_view(tree@) =~= before + line_labels(line@).take((j + 2) / 2));
                    }
                }
                j = j + 1;
            }
            proof {
                assert(line_labels(line@).take((j + 1) / 2) =~= line_labels(line@));
                assert(all.take(d + 1).drop_last() =~= all.take(d as int));
                assert(all.take(d + 1).last() == line@);
            }
            width = next_width(width, Ghost(d as nat));
            d = d + 1;
        }
        proof {
            assert(all.take(d as int) =~= all);
            assert(valid_tree_text(file_content@));
        }
        Some(FileState { tree, char_count: text.len() })
    }

    /// The length of the text that the document was read from.
    pub fn get_char_count(&self) -> (res: usize)
        ensures
            res == self@.char_count,
            is_document(self@),
    {
        proof {
            use_type_invariant(self);
        }
        self.char_count
    }

    /// The label of node `index`.
    pub fn get(&self, index: usize) -> (res: Option<&String>)
        ensures
            label_view(res) == node_at(self@.nodes, index as int),
            is_document(self@),
    {
        proof {
            use_type_invariant(self);
        }
        if index < self.tree.len() {
            Some(&self.tree[index])
        } else {
            None
        }
    }

    /// The label of the left child of node `index`.
    pub fn left_child(&self, index: usize) -> (res: Option<&String>)
        ensures
            label_view(res) == node_at(self@.nodes, 2 * index + 1),
    {
        if index < self.tree.len() / 2 {
            self.get(2 * index + 1)
        } else {
            None
        }
    }

    /// The label of the right child of node `index`.
    pub fn right_child(&self, index: usize) -> (res: Option<&String>)
        ensures
            label_view(res) == node_at(self@.nodes, 2 * index + 2),
    {
        if index < self.tree.len() / 2 {
            self.get(2 * index + 2)
        } else {
            None
        }
    }

    /// The label of the parent of node `index`; the root has none.
    pub fn parent(&self, index: usize) -> (res: Option<&String>)
        ensures
            label_view(res) == parent_of(self@.nodes, index as int),
    {
        if index == 0 {
            None
        } else {
            self.get((index - 1) / 2)
        }
    }
}

/// What the files hold after `text` was sent as the whole content of `uri`:
/// a valid text replaces the document, any other leaves everything as it was.
pub open spec fn open_document(
    files: Map<Seq<char>, Document>,
    uri: Seq<char>,
    text: Seq<char>,
) -> Map<Seq<char>, Document> {
    if valid_tree_text(text) {
        files.insert(uri, document_of(text))
    } else {
        files
    }
}

/// The documents that are open, by URI.
pub struct EditorState {
    files: StringHashMap<FileState>,
}

impl View for EditorState {
    type V = Map<Seq<char>, Document>;

    closed spec fn view(&self) -> Map<Seq<char>, Document> {
        self.files@.map_values(|f: FileState| f@)
    }
}

impl EditorState {
    /// No document is open.
    pub fn new() -> (res: Self)
        ensures
            res@ == Map::<Seq<char>, Document>::empty(),
    {
        let res = EditorState { files: StringHashMap::new() };
        proof {
            assert(res@ =~= Map::<Seq<char>, Document>::empty());
        }
        res
    }

    /// Takes `file_content` as the whole content of `file_name`. Says whether
    /// the content was valid; an invalid one changes nothing.
    pub fn modify_file(&mut self, file_name: String, file_content: String) -> (res: bool)
        ensures
            res == valid_tree_text(file_content@),
            final(self)@ == open_document(old(self)@, file_name@, file_content@),
    {
        let ghost name = file_name@;
        match FileState::new(file_content) {
            Some(fs) => {
                self.files.insert(file_name, fs);
                proof {
                    assert(final(self)@ =~= old(self)@.insert(name, fs@));
                }
                true
            },
            None => false,
        }
    }

    /// The document that is open under `file_name`: always the document of a
    /// valid text.
    pub fn get_file_state(&self, file_name: String) -> (res: Option<&FileState>)
        ensures
            match res {
                Some(fs) => self@.contains_key(file_name@) && fs@ == self@[file_name@]
                    && is_document(fs@),
                None => !self@.contains_key(file_name@),
            },
    {
        let res = self.files.get(file_name.as_str());
        proof {
            if let Some(fs) = res {
                use_type_invariant(fs);
            }
        }
        res
    }
}

/// Rejection preserves prior state: after a valid text was taken for `uri`,
/// an invalid replacement leaves the files as they were, with the document of
/// the valid text under `uri`.
pub proof fn lemma_rejection_keeps_document(
    files: Map<Seq<char>, Document>,
    uri: Seq<char>,
    valid: Seq<char>,
    invalid: Seq<char>,
)
    requires
        valid_tree_text(valid),
        !valid_tree_text(invalid),
    ensures
        open_document(open_document(files, uri, valid), uri, invalid) == open_document(
            files,
            uri,
            valid,
        ),
        open_document(open_document(files, uri, valid), uri, invalid).contains_key(uri),
        open_document(open_document(files, uri, valid), uri, invalid)[uri] == document_of(valid),
{
}

/// Every label of a tree is one character.
pub proof fn lemma_labels_are_single(lines: Seq<Seq<char>>)
    ensures
        forall|i: int| 0 <= i < tree_labels(lines).len() ==> (#[trigger] tree_labels(lines)[i]).len() == 1,
    decreases lines.len(),
{
    if lines.len() > 0 {
        lemma_labels_are_single(lines.drop_last());
        let front = tree_labels(lines.drop_last());
        let line = line_labels(lines.last());
        assert forall|i: int| 0 <= i < tree_labels(lines).len() implies (#[trigger] tree_labels(
            lines,
        )[i]).len() == 1 by {
            if i < front.len() {
                assert(tree_labels(lines)[i] == front[i]);
            } else {
                assert(tree_labels(lines)[i] == line[i - front.len()]);
            }
        }
    }
}

/// The children of a node have that node as their parent.
pub proof fn lemma_parent_of_child(nodes: Seq<Seq<char>>, i: int)
    requires
        0 <= i,
    ensures
        parent_of(nodes, 2 * i + 1) == node_at(nodes, i),
        parent_of(nodes, 2 * i + 2) == node_at(nodes, i),
{
}

/// The lines above a full level hold one node less than that level's width.
pub proof fn lemma_levels_above(lines: Seq<Seq<char>>, d: int)
    requires
        lines_ok(lines),
        0 <= d < lines.len(),
    ensures
        tree_labels(lines.take(d)).len() == pow2(d as nat) - 1,
    decreases d,
{
    if d == 0 {
        lemma2_to64();
        assert(lines.take(0) =~= Seq::<Seq<char>>::empty());
    } else {
        lemma_levels_above(lines, d - 1);
        lemma_pow2_unfold(d as nat);
        assert(lines.take(d).drop_last() =~= lines.take(d - 1));
        assert(lines.take(d).last() == lines[d - 1]);
        assert(line_ok(lines[d - 1], (d - 1) as nat, false));
    }
}

/// The labels of a prefix of the lines are a prefix of the labels.
pub proof fn lemma_labels_prefix(lines: Seq<Seq<char>>, d: int)
    requires
        0 <= d <= lines.len(),
    ensures
        tree_labels(lines.take(d)).len() <= tree_labels(lines).len(),
        tree_labels(lines.take(d)) == tree_labels(lines).take(tree_labels(lines.take(d)).len() as int),
    decreases lines.len() - d,
{
    if d == lines.len() {
        assert(lines.take(d) =~= lines);
        assert(tree_labels(lines).take(tree_labels(lines).len() as int) =~= tree_labels(lines));
    } else {
        lemma_labels_prefix(lines.drop_last(), d);
        assert(lines.drop_last().take(d) =~= lines.take(d));
        let front = tree_labels(lines.drop_last());
        let n = tree_labels(lines.take(d)).len() as int;
        assert(tree_labels(lines).take(n) =~= front.take(n));
    }
}

/// Level-order placement: in a valid text, the character at offset `2k` of
/// the line at depth `d` is the label of node `2^d - 1 + k`.
pub proof fn lemma_label_position(lines: Seq<Seq<char>>, d: int, k: int)
    requires
        lines_ok(lines),
        0 <= d < lines.len(),
        0 <= k,
        2 * k < lines[d].len(),
    ensures
        node_at(tree_labels(lines), pow2(d as nat) - 1 + k) == Some(seq![lines[d][2 * k]]),
{
    lemma_levels_above(lines, d);
    lemma_labels_prefix(lines, d + 1);
    let upto = tree_labels(lines.take(d + 1));
    assert(lines.take(d + 1).drop_last() =~= lines.take(d));
    assert(lines.take(d + 1).last() == lines[d]);
    let base = tree_labels(lines.take(d)).len() as int;
    assert(upto[base + k] == line_labels(lines[d])[k]);
    assert(tree_labels(lines).take(upto.len() as int)[base + k] == tree_labels(lines)[base + k]);
}

} // verus!
