//! Filesystem paths as the bytes the operating system gives, and the
//! component-wise reading of them that path comparison, prefix tests and
//! relative display go by.
//!
//! A path splits at `/`. A leading `/` is the root; empty pieces (repeated
//! or trailing separators) and `.` pieces are dropped, except a `.` that
//! opens a relative path, which stays as the current directory; `..` is the
//! parent directory; any other piece is a normal name.

use vstd::prelude::*;

verus! {

/// One component of a path.
pub enum Component {
    RootDir,
    CurDir,
    ParentDir,
    Normal(Vec<u8>),
}

/// What a component is, with the name's bytes as a sequence.
pub enum ComponentView {
    RootDir,
    CurDir,
    ParentDir,
    Normal(Seq<u8>),
}

impl View for Component {
    type V = ComponentView;

    open spec fn view(&self) -> ComponentView {
        match self {
            Component::RootDir => ComponentView::RootDir,
            Component::CurDir => ComponentView::CurDir,
            Component::ParentDir => ComponentView::ParentDir,
            Component::Normal(name) => ComponentView::Normal(name@),
        }
    }
}

pub open spec fn views(parts: Seq<Component>) -> Seq<ComponentView> {
    parts.map_values(|c: Component| c@)
}

/// Byte of the separator `/`.
pub open spec fn separator() -> u8 {
    47
}

/// Byte of `.`.
pub open spec fn dot() -> u8 {
    46
}

/// The index of the first separator at or after `from`, or the length.
pub open spec fn next_separator(p: Seq<u8>, from: int) -> int
    decreases p.len() - from,
{
    if from >= p.len() {
        p.len() as int
    } else if p[from] == separator() {
        from
    } else {
        next_separator(p, from + 1)
    }
}

pub proof fn lemma_next_separator_bounds(p: Seq<u8>, from: int)
    requires
        0 <= from <= p.len(),
    ensures
        from <= next_separator(p, from) <= p.len(),
        next_separator(p, from) < p.len() ==> p[next_separator(p, from)] == separator(),
        forall|k: int| from <= k < next_separator(p, from) ==> p[k] != separator(),
    decreases p.len() - from,
{
    if from < p.len() && p[from] != separator() {
        lemma_next_separator_bounds(p, from + 1);
    }
}

/// What one piece between separators contributes.
pub open spec fn piece_component(piece: Seq<u8>) -> Seq<ComponentView> {
    if piece.len() == 0 || piece == seq![dot()] {
        seq![]
    } else if piece == seq![dot(), dot()] {
        seq![ComponentView::ParentDir]
    } else {
        seq![ComponentView::Normal(piece)]
    }
}

/// The components of the pieces that start at `from`.
pub open spec fn pieces_from(p: Seq<u8>, from: int) -> Seq<ComponentView>
    decreases p.len() - from,
{
    if from < 0 || from > p.len() {
        seq![]
    } else {
        let end = next_separator(p, from);
        proof {
            lemma_next_separator_bounds(p, from);
        }
        let here = piece_component(p.subrange(from, end));
        if end < p.len() {
            here + pieces_from(p, end + 1)
        } else {
            here
        }
    }
}

/// Whether `p` opens with a `.` piece of a relative path.
pub open spec fn opens_with_cur_dir(p: Seq<u8>) -> bool {
    p.len() > 0 && p[0] == dot() && (p.len() == 1 || p[1] == separator())
}

/// The components of the path `p`.
pub open spec fn components(p: Seq<u8>) -> Seq<ComponentView> {
    if p.len() == 0 {
        seq![]
    } else if p[0] == separator() {
        seq![ComponentView::RootDir] + pieces_from(p, 1)
    } else if opens_with_cur_dir(p) {
        seq![ComponentView::CurDir] + pieces_from(p, 1)
    } else {
        pieces_from(p, 0)
    }
}

/// Whether the piece that starts at `from` stands for no component: it is
/// empty or `.`.
pub open spec fn empty_piece(p: Seq<u8>, from: int) -> bool {
    piece_component(p.subrange(from, next_separator(p, from))).len() == 0
}

/// The offset just past the piece that starts at `from` and the separator
/// that ends it.
pub open spec fn after_piece(p: Seq<u8>, from: int) -> int {
    let end = next_separator(p, from);
    if end < p.len() {
        end + 1
    } else {
        p.len() as int
    }
}

/// The offset reached after reading `k` more components from the pieces
/// that start at `from`: each piece is read with its separator, and pieces
/// that stand for no component are passed over on the way.
pub open spec fn skip_components(p: Seq<u8>, from: int, k: nat) -> int
    decreases p.len() - from,
{
    if k == 0 || from < 0 || from >= p.len() {
        from
    } else {
        proof {
            lemma_next_separator_bounds(p, from);
        }
        if empty_piece(p, from) {
            skip_components(p, after_piece(p, from), k)
        } else {
            skip_components(p, after_piece(p, from), (k - 1) as nat)
        }
    }
}

/// The offset of the first piece at or after `from` that stands for a
/// component, or the length when there is none.
pub open spec fn skip_empty_pieces(p: Seq<u8>, from: int) -> int
    decreases p.len() - from,
{
    if from < 0 || from >= p.len() {
        from
    } else {
        proof {
            lemma_next_separator_bounds(p, from);
        }
        if empty_piece(p, from) {
            skip_empty_pieces(p, after_piece(p, from))
        } else {
            from
        }
    }
}

/// How many bytes the root or the opening `.` takes (0 or 1).
pub open spec fn head_len(p: Seq<u8>) -> int {
    if p.len() > 0 && (p[0] == separator() || opens_with_cur_dir(p)) {
        1
    } else {
        0
    }
}

/// The offset reached after reading the first `k` components of `p`.
pub open spec fn offset_after_components(p: Seq<u8>, k: nat) -> int {
    if k == 0 {
        0
    } else if head_len(p) == 1 {
        skip_components(p, 1, (k - 1) as nat)
    } else {
        skip_components(p, 0, k)
    }
}

/// The index of the last separator in `p[lo..hi]`, or `lo - 1` when there
/// is none.
pub open spec fn prev_separator(p: Seq<u8>, lo: int, hi: int) -> int
    decreases hi - lo,
{
    if hi <= lo {
        lo - 1
    } else if p[hi - 1] == separator() {
        hi - 1
    } else {
        prev_separator(p, lo, hi - 1)
    }
}

pub proof fn lemma_prev_separator_bounds(p: Seq<u8>, lo: int, hi: int)
    requires
        0 <= lo <= hi <= p.len(),
    ensures
        lo - 1 <= prev_separator(p, lo, hi) < hi,
        prev_separator(p, lo, hi) >= lo ==> p[prev_separator(p, lo, hi)] == separator(),
        forall|k: int| prev_separator(p, lo, hi) < k < hi && lo <= k ==> p[k] != separator(),
    decreases hi - lo,
{
    if hi > lo && p[hi - 1] != separator() {
        lemma_prev_separator_bounds(p, lo, hi - 1);
    }
}

/// The end of `p[..hi]` once trailing pieces that stand for no component
/// (empty or `.`), with their separators, are taken off, never going below
/// `floor`.
pub open spec fn trim_trailing(p: Seq<u8>, floor: int, hi: int) -> int
    decreases hi - floor,
{
    if hi <= floor || floor < 0 || hi > p.len() {
        hi
    } else {
        let s = prev_separator(p, floor, hi);
        proof {
            lemma_prev_separator_bounds(p, floor, hi);
        }
        if piece_component(p.subrange(s + 1, hi)).len() == 0 {
            trim_trailing(p, floor, if s >= floor { s } else { floor })
        } else {
            hi
        }
    }
}

/// What is left of `p` once its first `k` components are read, as a path:
/// pieces that stand for no component are taken off at both ends, and
/// inner separators stay as written. With `k` zero only trailing ones go,
/// and never the root or an opening `.`.
pub open spec fn rest_after_components(p: Seq<u8>, k: nat) -> Seq<u8> {
    if k == 0 {
        p.subrange(0, trim_trailing(p, head_len(p), p.len() as int))
    } else {
        let lo = skip_empty_pieces(p, offset_after_components(p, k));
        p.subrange(lo, trim_trailing(p, lo, p.len() as int))
    }
}

/// `base` with the relative name `name` added as a last component, as
/// `PathBuf::push` adds a relative path: a separator goes between them
/// unless `base` is empty or already ends in one.
pub open spec fn joined(base: Seq<u8>, name: Seq<u8>) -> Seq<u8> {
    if base.len() > 0 && base.last() != separator() {
        base + seq![separator()] + name
    } else {
        base + name
    }
}

/// Whether `p` is an absolute path: it starts at the root.
pub open spec fn is_absolute_path(p: Seq<u8>) -> bool {
    p.len() > 0 && p[0] == separator()
}

/// The parent of `p` as `Path::parent` gives it: `p` without its last
/// component, and without the empty and `.` pieces that then end it; none
/// when `p` ends at the root or has no component; the empty path when only
/// an opening `.` is left.
pub open spec fn parent_path(p: Seq<u8>) -> Option<Seq<u8>> {
    let floor = head_len(p);
    let h = trim_trailing(p, floor, p.len() as int);
    if h > floor {
        let s = prev_separator(p, floor, h);
        Some(p.subrange(0, trim_trailing(p, floor, if s >= floor { s } else { floor })))
    } else if floor == 1 && !is_absolute_path(p) {
        Some(seq![])
    } else {
        None
    }
}

/// The bytes `p[lo..hi]`.
pub fn slice_bytes(p: &Vec<u8>, lo: usize, hi: usize) -> (r: Vec<u8>)
    requires
        lo <= hi <= p.len(),
    ensures
        r@ == p@.subrange(lo as int, hi as int),
{
    let mut r: Vec<u8> = Vec::new();
    let mut i = lo;
    while i < hi
        invariant
            lo <= i <= hi <= p.len(),
            r@ == p@.subrange(lo as int, i as int),
        decreases hi - i,
    {
        r.push(p[i]);
        i = i + 1;
    }
    r
}

/// The components of the path `path`.
pub fn path_components(path: &Vec<u8>) -> (parts: Vec<Component>)
    ensures
        views(parts@) == components(path@),
{
    let n = path.len();
    let mut parts: Vec<Component> = Vec::new();
    if n == 0 {
        assert(views(parts@) =~= seq![]);
        return parts;
    }
    let mut from: usize = 0;
    if path[0] == 47 {
        parts.push(Component::RootDir);
        from = 1;
    } else if path[0] == 46 && (n == 1 || path[1] == 47) {
        parts.push(Component::CurDir);
        from = 1;
    }
    assert(views(parts@) + pieces_from(path@, from as int) =~= components(path@));
    loop
        invariant
            n == path.len(),
            from <= n,
            views(parts@) + pieces_from(path@, from as int) == components(path@),
        decreases n - from,
    {
        let mut end = from;
        while end < n && path[end] != 47
            invariant
                from <= end <= n == path.len(),
                next_separator(path@, from as int) == next_separator(path@, end as int),
            decreases n - end,
        {
            end = end + 1;
        }
        let piece = slice_bytes(path, from, end);
        let ghost before = views(parts@);
        let len = piece.len();
        if len == 0 || (len == 1 && piece[0] == 46) {
            assert(len == 1 ==> piece@ =~= seq![dot()]);
        } else if len == 2 && piece[0] == 46 && piece[1] == 46 {
            assert(piece@ =~= seq![dot(), dot()]);
            parts.push(Component::ParentDir);
        } else {
            assert(piece@ != seq![dot()]);
            assert(piece@ != seq![dot(), dot()]);
            parts.push(Component::Normal(piece));
        }
        assert(views(parts@) =~= before + piece_component(path@.subrange(from as int, end as int)));
        if end >= n {
            return parts;
        }
        from = end + 1;
    }
}

/// Three-way byte-wise comparison of `a` and `b` (-1, 0 or 1); a proper
/// prefix comes first.
pub open spec fn order_bytes(a: Seq<u8>, b: Seq<u8>) -> int
    decreases a.len(),
{
    if a.len() == 0 {
        if b.len() == 0 {
            0
        } else {
            -1
        }
    } else if b.len() == 0 {
        1
    } else if a[0] < b[0] {
        -1
    } else if a[0] > b[0] {
        1
    } else {
        order_bytes(a.drop_first(), b.drop_first())
    }
}

/// The rank of a component's kind: root, then `.`, then `..`, then names.
pub open spec fn component_rank(c: ComponentView) -> int {
    match c {
        ComponentView::RootDir => 1,
        ComponentView::CurDir => 2,
        ComponentView::ParentDir => 3,
        ComponentView::Normal(_) => 4,
    }
}

/// Three-way comparison of components: by kind, names by their bytes.
pub open spec fn order_component(a: ComponentView, b: ComponentView) -> int {
    if component_rank(a) < component_rank(b) {
        -1
    } else if component_rank(a) > component_rank(b) {
        1
    } else {
        match (a, b) {
            (ComponentView::Normal(x), ComponentView::Normal(y)) => order_bytes(x, y),
            _ => 0,
        }
    }
}

/// Lexicographic three-way comparison of component sequences.
pub open spec fn order_parts(a: Seq<ComponentView>, b: Seq<ComponentView>) -> int
    decreases a.len(),
{
    if a.len() == 0 {
        if b.len() == 0 {
            0
        } else {
            -1
        }
    } else if b.len() == 0 {
        1
    } else if order_component(a[0], b[0]) != 0 {
        order_component(a[0], b[0])
    } else {
        order_parts(a.drop_first(), b.drop_first())
    }
}

/// Three-way comparison of paths, component by component.
pub open spec fn order_paths(a: Seq<u8>, b: Seq<u8>) -> int {
    order_parts(components(a), components(b))
}

/// Whether the components of `base` begin the components of `p`.
pub open spec fn starts_with(p: Seq<u8>, base: Seq<u8>) -> bool {
    let pc = components(p);
    let bc = components(base);
    bc.len() <= pc.len() && pc.take(bc.len() as int) == bc
}

pub proof fn lemma_order_bytes_laws(a: Seq<u8>, b: Seq<u8>, c: Seq<u8>)
    ensures
        order_bytes(a, b) == -order_bytes(b, a),
        -1 <= order_bytes(a, b) <= 1,
        order_bytes(a, b) == 0 <==> a == b,
        order_bytes(a, b) <= 0 && order_bytes(b, c) <= 0 ==> order_bytes(a, c) <= 0,
    decreases a.len(),
{
    if a.len() > 0 && b.len() > 0 && c.len() > 0 {
        lemma_order_bytes_laws(a.drop_first(), b.drop_first(), c.drop_first());
    } else if a.len() > 0 && b.len() > 0 {
        lemma_order_bytes_laws(a.drop_first(), b.drop_first(), c);
    }
    if a.len() > 0 && b.len() > 0 && a[0] == b[0] && a.drop_first() == b.drop_first() {
        assert(a =~= seq![a[0]] + a.drop_first());
        assert(b =~= seq![b[0]] + b.drop_first());
    }
    if a.len() == 0 && b.len() == 0 {
        assert(a =~= b);
    }
}

pub proof fn lemma_order_component_laws(a: ComponentView, b: ComponentView, c: ComponentView)
    ensures
        order_component(a, b) == -order_component(b, a),
        -1 <= order_component(a, b) <= 1,
        order_component(a, b) == 0 <==> a == b,
        order_component(a, b) <= 0 && order_component(b, c) <= 0 ==> order_component(a, c) <= 0,
{
    match (a, b, c) {
        (ComponentView::Normal(x), ComponentView::Normal(y), ComponentView::Normal(z)) => {
            lemma_order_bytes_laws(x, y, z);
        },
        (ComponentView::Normal(x), ComponentView::Normal(y), _) => {
            lemma_order_bytes_laws(x, y, y);
        },
        _ => {},
    }
}

pub proof fn lemma_order_parts_laws(
    a: Seq<ComponentView>,
    b: Seq<ComponentView>,
    c: Seq<ComponentView>,
)
    ensures
        order_parts(a, b) == -order_parts(b, a),
        -1 <= order_parts(a, b) <= 1,
        order_parts(a, b) == 0 <==> a == b,
        order_parts(a, b) <= 0 && order_parts(b, c) <= 0 ==> order_parts(a, c) <= 0,
    decreases a.len(),
{
    if a.len() > 0 && b.len() > 0 {
        lemma_order_component_laws(a[0], b[0], b[0]);
        if c.len() > 0 {
            lemma_order_component_laws(a[0], b[0], c[0]);
            lemma_order_component_laws(a[0], c[0], b[0]);
            lemma_order_component_laws(b[0], c[0], a[0]);
            lemma_order_parts_laws(a.drop_first(), b.drop_first(), c.drop_first());
        } else {
            lemma_order_parts_laws(a.drop_first(), b.drop_first(), c);
        }
        if a[0] == b[0] && a.drop_first() == b.drop_first() {
            assert(a =~= seq![a[0]] + a.drop_first());
            assert(b =~= seq![b[0]] + b.drop_first());
        }
    }
    if a.len() == 0 && b.len() == 0 {
        assert(a =~= b);
    }
}

/// Paths compare as a total order in which two paths tie exactly when
/// their components are the same.
pub proof fn lemma_order_paths_laws(a: Seq<u8>, b: Seq<u8>, c: Seq<u8>)
    ensures
        order_paths(a, b) == -order_paths(b, a),
        -1 <= order_paths(a, b) <= 1,
        order_paths(a, b) == 0 <==> components(a) == components(b),
        order_paths(a, b) <= 0 && order_paths(b, c) <= 0 ==> order_paths(a, c) <= 0,
{
    lemma_order_parts_laws(components(a), components(b), components(c));
}

/// Three-way byte comparison.
pub fn compare_bytes(a: &Vec<u8>, b: &Vec<u8>) -> (r: i8)
    ensures
        r == order_bytes(a@, b@),
{
    let mut i: usize = 0;
    assert(a@.skip(0) =~= a@);
    assert(b@.skip(0) =~= b@);
    while i < a.len() && i < b.len()
        invariant
            i <= a.len(),
            i <= b.len(),
            order_bytes(a@, b@) == order_bytes(a@.skip(i as int), b@.skip(i as int)),
        decreases a.len() - i,
    {
        if a[i] < b[i] {
            return -1;
        } else if a[i] > b[i] {
            return 1;
        }
        assert(a@.skip(i as int).drop_first() =~= a@.skip(i + 1));
        assert(b@.skip(i as int).drop_first() =~= b@.skip(i + 1));
        i = i + 1;
    }
    if i < a.len() {
        1
    } else if i < b.len() {
        -1
    } else {
        0
    }
}

fn component_rank_of(c: &Component) -> (r: u8)
    ensures
        r == component_rank(c@),
{
    match c {
        Component::RootDir => 1,
        Component::CurDir => 2,
        Component::ParentDir => 3,
        Component::Normal(_) => 4,
    }
}

/// Three-way component comparison.
pub fn compare_component(a: &Component, b: &Component) -> (r: i8)
    ensures
        r == order_component(a@, b@),
{
    let ra = component_rank_of(a);
    let rb = component_rank_of(b);
    if ra < rb {
        -1
    } else if ra > rb {
        1
    } else {
        match (a, b) {
            (Component::Normal(x), Component::Normal(y)) => compare_bytes(x, y),
            _ => 0,
        }
    }
}

/// Three-way comparison of two paths, component by component.
pub fn compare_paths(a: &Vec<u8>, b: &Vec<u8>) -> (r: i8)
    ensures
        r == order_paths(a@, b@),
{
    let pa = path_components(a);
    let pb = path_components(b);
    let ghost va = views(pa@);
    let ghost vb = views(pb@);
    let mut i: usize = 0;
    assert(va.skip(0) =~= va);
    assert(vb.skip(0) =~= vb);
    while i < pa.len() && i < pb.len()
        invariant
            i <= pa.len(),
            i <= pb.len(),
            va == views(pa@),
            vb == views(pb@),
            order_paths(a@, b@) == order_parts(va.skip(i as int), vb.skip(i as int)),
        decreases pa.len() - i,
    {
        let c = compare_component(&pa[i], &pb[i]);
        assert(va.skip(i as int)[0] == pa@[i as int]@);
        assert(vb.skip(i as int)[0] == pb@[i as int]@);
        if c != 0 {
            return c;
        }
        assert(va.skip(i as int).drop_first() =~= va.skip(i + 1));
        assert(vb.skip(i as int).drop_first() =~= vb.skip(i + 1));
        i = i + 1;
    }
    if i < pa.len() {
        1
    } else if i < pb.len() {
        -1
    } else {
        0
    }
}

/// Whether two paths have the same components.
pub fn same_path(a: &Vec<u8>, b: &Vec<u8>) -> (r: bool)
    ensures
        r == (components(a@) == components(b@)),
{
    proof {
        lemma_order_paths_laws(a@, b@, b@);
    }
    compare_paths(a, b) == 0
}

/// Whether the components of `base` begin those of `path`.
pub fn path_starts_with(path: &Vec<u8>, base: &Vec<u8>) -> (r: bool)
    ensures
        r == starts_with(path@, base@),
{
    let pp = path_components(path);
    let pb = path_components(base);
    let ghost vp = views(pp@);
    let ghost vb = views(pb@);
    if pb.len() > pp.len() {
        return false;
    }
    let mut i: usize = 0;
    while i < pb.len()
        invariant
            i <= pb.len() <= pp.len(),
            vp == views(pp@),
            vb == views(pb@),
            vp == components(path@),
            vb == components(base@),
            forall|k: int| 0 <= k < i ==> vp[k] == vb[k],
        decreases pb.len() - i,
    {
        let c = compare_component(&pp[i], &pb[i]);
        assert(vp[i as int] == pp@[i as int]@);
        assert(vb[i as int] == pb@[i as int]@);
        proof {
            lemma_order_component_laws(pp@[i as int]@, pb@[i as int]@, pb@[i as int]@);
        }
        if c != 0 {
            assert(vp.take(vb.len() as int)[i as int] != vb[i as int]);
            assert(components(path@) == vp);
            assert(components(base@) == vb);
            assert(vp.take(vb.len() as int) != vb);
            return false;
        }
        i = i + 1;
    }
    assert(vp.take(vb.len() as int) =~= vb);
    true
}

pub proof fn lemma_skip_bounds(p: Seq<u8>, from: int, k: nat)
    requires
        0 <= from <= p.len(),
    ensures
        from <= skip_components(p, from, k) <= p.len(),
        from <= skip_empty_pieces(p, from) <= p.len(),
    decreases p.len() - from,
{
    if from < p.len() {
        lemma_next_separator_bounds(p, from);
        lemma_skip_bounds(p, after_piece(p, from), k);
        if k > 0 {
            lemma_skip_bounds(p, after_piece(p, from), (k - 1) as nat);
        }
    }
}

pub proof fn lemma_trim_bounds(p: Seq<u8>, floor: int, hi: int)
    requires
        0 <= floor <= hi <= p.len(),
    ensures
        floor <= trim_trailing(p, floor, hi) <= hi,
    decreases hi - floor,
{
    if hi > floor {
        lemma_prev_separator_bounds(p, floor, hi);
        let s = prev_separator(p, floor, hi);
        lemma_trim_bounds(p, floor, if s >= floor { s } else { floor });
    }
}

proof fn lemma_read_all_pieces(p: Seq<u8>, from: int, k: nat)
    requires
        0 <= from <= p.len(),
        pieces_from(p, from).len() == k,
    ensures
        skip_empty_pieces(p, skip_components(p, from, k)) == p.len(),
    decreases p.len() - from,
{
    if from < p.len() {
        lemma_next_separator_bounds(p, from);
        let end = next_separator(p, from);
        let after = after_piece(p, from);
        let here = piece_component(p.subrange(from, end));
        if end < p.len() {
            assert(pieces_from(p, from) == here + pieces_from(p, end + 1));
            if empty_piece(p, from) {
                assert(here.len() == 0);
                lemma_read_all_pieces(p, after, k);
            } else {
                assert(here.len() == 1);
                lemma_read_all_pieces(p, after, (k - 1) as nat);
            }
        } else {
            assert(after == p.len());
            assert(pieces_from(p, from) == here);
            assert(skip_empty_pieces(p, p.len() as int) == p.len());
            if empty_piece(p, from) {
                assert(k == 0);
                assert(skip_components(p, from, k) == from);
            } else {
                assert(k == 1);
                assert(skip_components(p, from, k) == skip_components(p, after, 0));
            }
        }
    }
}

/// Once every component of a path is read, nothing of it is left.
pub proof fn lemma_nothing_after_all_components(p: Seq<u8>)
    ensures
        rest_after_components(p, components(p).len()).len() == 0,
{
    let k = components(p).len();
    if p.len() == 0 {
        assert(rest_after_components(p, k) =~= seq![]);
    } else if head_len(p) == 1 {
        lemma_read_all_pieces(p, 1, (k - 1) as nat);
        lemma_skip_bounds(p, 1, (k - 1) as nat);
        assert(offset_after_components(p, k) == skip_components(p, 1, (k - 1) as nat));
    } else {
        lemma_next_separator_bounds(p, 0);
        let end = next_separator(p, 0);
        lemma_next_separator_bounds(p, 1);
        assert(end >= 1);
        let piece = p.subrange(0, end);
        assert(piece.len() == end);
        if piece == seq![dot()] {
            assert(piece.len() == 1);
            assert(piece[0] == p[0]);
            assert(opens_with_cur_dir(p));
        }
        assert(piece_component(piece).len() == 1);
        assert(k >= 1);
        lemma_read_all_pieces(p, 0, k);
    }
}

/// The index of the first separator at or after `from`, or the length.
fn find_separator(p: &Vec<u8>, from: usize) -> (end: usize)
    requires
        from <= p.len(),
    ensures
        end == next_separator(p@, from as int),
{
    let mut end = from;
    while end < p.len() && p[end] != 47
        invariant
            from <= end <= p.len(),
            next_separator(p@, from as int) == next_separator(p@, end as int),
        decreases p.len() - end,
    {
        end = end + 1;
    }
    end
}

/// Whether `p[from..end]` is empty or `.`.
fn piece_is_empty(p: &Vec<u8>, from: usize, end: usize) -> (r: bool)
    requires
        from <= end <= p.len(),
    ensures
        r == (piece_component(p@.subrange(from as int, end as int)).len() == 0),
{
    let r = end == from || (end - from == 1 && p[from] == 46);
    let ghost piece = p@.subrange(from as int, end as int);
    if end - from == 1 && p[from] == 46 {
        assert(piece =~= seq![dot()]);
    }
    if !r {
        assert(piece.len() != 1 || piece[0] != dot());
        assert(piece != seq![dot()]);
    }
    r
}

/// How many bytes the root or the opening `.` of `p` takes.
fn head_length(p: &Vec<u8>) -> (r: usize)
    ensures
        r == head_len(p@),
{
    let n = p.len();
    if n > 0 && (p[0] == 47 || (p[0] == 46 && (n == 1 || p[1] == 47))) {
        1
    } else {
        0
    }
}

fn skip_components_from(p: &Vec<u8>, from: usize, k: usize) -> (r: usize)
    requires
        from <= p.len(),
    ensures
        r == skip_components(p@, from as int, k as nat),
{
    let mut at = from;
    let mut left = k;
    while left > 0 && at < p.len()
        invariant
            at <= p.len(),
            skip_components(p@, at as int, left as nat) == skip_components(p@, from as int, k as nat),
        decreases p.len() - at,
    {
        let end = find_separator(p, at);
        proof {
            lemma_next_separator_bounds(p@, at as int);
        }
        let next = if end < p.len() { end + 1 } else { p.len() };
        if !piece_is_empty(p, at, end) {
            left = left - 1;
        }
        at = next;
    }
    at
}

fn skip_empty_from(p: &Vec<u8>, from: usize) -> (r: usize)
    requires
        from <= p.len(),
    ensures
        r == skip_empty_pieces(p@, from as int),
{
    let mut at = from;
    while at < p.len()
        invariant
            at <= p.len(),
            skip_empty_pieces(p@, at as int) == skip_empty_pieces(p@, from as int),
        decreases p.len() - at,
    {
        let end = find_separator(p, at);
        proof {
            lemma_next_separator_bounds(p@, at as int);
        }
        if !piece_is_empty(p, at, end) {
            return at;
        }
        at = if end < p.len() { end + 1 } else { p.len() };
    }
    at
}

fn trim_trailing_at(p: &Vec<u8>, floor: usize, hi: usize) -> (r: usize)
    requires
        floor <= hi <= p.len(),
    ensures
        r == trim_trailing(p@, floor as int, hi as int),
{
    let mut end = hi;
    while end > floor
        invariant
            floor <= end <= hi <= p.len(),
            trim_trailing(p@, floor as int, end as int) == trim_trailing(p@, floor as int, hi as int),
        decreases end - floor,
    {
        let mut s = end;
        while s > floor && p[s - 1] != 47
            invariant
                floor <= s <= end <= p.len(),
                prev_separator(p@, floor as int, s as int) == prev_separator(p@, floor as int, end as int),
            decreases s - floor,
        {
            s = s - 1;
        }
        if !piece_is_empty(p, s, end) {
            return end;
        }
        end = if s > floor { s - 1 } else { floor };
    }
    end
}

/// What is left of `p` once its first `k` components are read (see
/// `rest_after_components`).
pub fn rest_after(p: &Vec<u8>, k: usize) -> (r: Vec<u8>)
    ensures
        r@ == rest_after_components(p@, k as nat),
{
    if k == 0 {
        let floor = head_length(p);
        let hi = trim_trailing_at(p, floor, p.len());
        proof {
            lemma_trim_bounds(p@, floor as int, p.len() as int);
        }
        slice_bytes(p, 0, hi)
    } else {
        let first = if head_length(p) == 1 {
            proof {
                lemma_skip_bounds(p@, 1, (k - 1) as nat);
            }
            skip_components_from(p, 1, k - 1)
        } else {
            proof {
                lemma_skip_bounds(p@, 0, k as nat);
            }
            skip_components_from(p, 0, k)
        };
        let lo = skip_empty_from(p, first);
        proof {
            lemma_skip_bounds(p@, first as int, 0);
        }
        let hi = trim_trailing_at(p, lo, p.len());
        proof {
            lemma_trim_bounds(p@, lo as int, p.len() as int);
        }
        slice_bytes(p, lo, hi)
    }
}

/// `base` with the relative path `name` added (see `joined`).
pub fn join_relative(base: &Vec<u8>, name: &Vec<u8>) -> (r: Vec<u8>)
    ensures
        r@ == joined(base@, name@),
{
    let mut r = slice_bytes(base, 0, base.len());
    assert(r@ =~= base@);
    if base.len() > 0 && base[base.len() - 1] != 47 {
        r.push(47);
    }
    let ghost start = r@;
    let mut i: usize = 0;
    while i < name.len()
        invariant
            i <= name.len(),
            r@ == start + name@.take(i as int),
        decreases name.len() - i,
    {
        r.push(name[i]);
        i = i + 1;
        assert(name@.take(i as int) =~= name@.take(i - 1).push(name@[i - 1]));
    }
    assert(name@.take(name.len() as int) =~= name@);
    r
}

/// Whether `p` is an absolute path.
pub fn is_absolute(p: &Vec<u8>) -> (r: bool)
    ensures
        r == is_absolute_path(p@),
{
    p.len() > 0 && p[0] == 47
}

/// The parent of `p` (see `parent_path`).
pub fn path_parent(p: &Vec<u8>) -> (r: Option<Vec<u8>>)
    ensures
        match r {
            Some(q) => parent_path(p@) == Some(q@),
            None => parent_path(p@) is None,
        },
{
    let floor = head_length(p);
    let h = trim_trailing_at(p, floor, p.len());
    proof {
        lemma_trim_bounds(p@, floor as int, p.len() as int);
    }
    if h > floor {
        let mut s = h;
        while s > floor && p[s - 1] != 47
            invariant
                floor <= s <= h <= p.len(),
                prev_separator(p@, floor as int, s as int) == prev_separator(p@, floor as int, h as int),
            decreases s - floor,
        {
            s = s - 1;
        }
        let new_end = if s > floor { s - 1 } else { floor };
        let e = trim_trailing_at(p, floor, new_end);
        proof {
            lemma_trim_bounds(p@, floor as int, new_end as int);
        }
        Some(slice_bytes(p, 0, e))
    } else if floor == 1 && p[0] != 47 {
        let empty: Vec<u8> = Vec::new();
        assert(empty@ =~= seq![]);
        Some(empty)
    } else {
        None
    }
}

} // verus!
