//! Byte paths with Unix semantics: separators, components, prefixes,
//! joining and ordering.

use vstd::prelude::*;

verus! {

pub open spec fn slash() -> u8 {
    47u8
}

/// The runs of bytes between separators, left to right (empty runs included).
pub open spec fn segments(p: Seq<u8>) -> Seq<Seq<u8>>
    decreases p.len(),
{
    if p.len() == 0 {
        seq![Seq::<u8>::empty()]
    } else {
        let s = segments(p.drop_last());
        if p.last() == slash() {
            s.push(Seq::<u8>::empty())
        } else {
            s.update(s.len() - 1, s.last().push(p.last()))
        }
    }
}

pub open spec fn is_dot(s: Seq<u8>) -> bool {
    s.len() == 1 && s[0] == 46u8
}

pub open spec fn is_dot_dot(s: Seq<u8>) -> bool {
    s.len() == 2 && s[0] == 46u8 && s[1] == 46u8
}

/// A segment that names something: not empty and not `.`.
pub open spec fn is_named(s: Seq<u8>) -> bool {
    s.len() > 0 && !is_dot(s)
}

/// The named segments, in order.
pub open spec fn named(s: Seq<Seq<u8>>) -> Seq<Seq<u8>>
    decreases s.len(),
{
    if s.len() == 0 {
        Seq::empty()
    } else {
        let r = named(s.drop_last());
        if is_named(s.last()) {
            r.push(s.last())
        } else {
            r
        }
    }
}

pub open spec fn root_component() -> Seq<u8> {
    seq![47u8]
}

pub open spec fn cur_component() -> Seq<u8> {
    seq![46u8]
}

pub open spec fn is_absolute(p: Seq<u8>) -> bool {
    p.len() > 0 && p[0] == slash()
}

/// The components of a path as `std::path` sees them on Unix: a root (`/`)
/// for an absolute path, a leading `.` kept only at the start, then every
/// segment that is neither empty nor `.` (so `..` stays a component).
pub open spec fn components(p: Seq<u8>) -> Seq<Seq<u8>> {
    let segs = segments(p);
    if is_absolute(p) {
        seq![root_component()] + named(segs.drop_first())
    } else if is_dot(segs[0]) {
        seq![cur_component()] + named(segs.drop_first())
    } else {
        named(segs)
    }
}

pub proof fn lemma_segments_len(p: Seq<u8>)
    ensures
        segments(p).len() >= 1,
        segments(p).len() == 1 ==> segments(p)[0] == p,
    decreases p.len(),
{
    if p.len() > 0 {
        lemma_segments_len(p.drop_last());
        let s = segments(p.drop_last());
        if p.last() != slash() && s.len() == 1 {
            assert(s[0].push(p.last()) =~= p);
        }
    }
}

/// The segments of a path.
pub fn path_segments(p: &[u8]) -> (r: Vec<Vec<u8>>)
    ensures
        r@.map_values(|v: Vec<u8>| v@) == segments(p@),
{
    let mut out: Vec<Vec<u8>> = Vec::new();
    let mut current: Vec<u8> = Vec::new();
    let mut i: usize = 0;
    proof {
        assert(p@.take(0) =~= Seq::<u8>::empty());
    }
    while i < p.len()
        invariant
            i <= p@.len(),
            out@.map_values(|v: Vec<u8>| v@).push(current@) == segments(p@.take(i as int)),
        decreases p@.len() - i,
    {
        let ghost before = out@.map_values(|v: Vec<u8>| v@).push(current@);
        assert(p@.take(i + 1).drop_last() =~= p@.take(i as int));
        if p[i] == 47u8 {
            let finished = current;
            out.push(finished);
            current = Vec::new();
            assert(out@.map_values(|v: Vec<u8>| v@).push(current@) =~= before.push(
                Seq::<u8>::empty(),
            ));
        } else {
            current.push(p[i]);
            assert(out@.map_values(|v: Vec<u8>| v@).push(current@) =~= before.update(
                before.len() - 1,
                before.last().push(p@[i as int]),
            ));
        }
        i = i + 1;
    }
    out.push(current);
    assert(p@.take(p@.len() as int) =~= p@);
    out
}

fn is_named_exec(s: &[u8]) -> (r: bool)
    ensures
        r == is_named(s@),
{
    s.len() > 0 && !(s.len() == 1 && s[0] == 46u8)
}

/// The named segments from index `from` on.
fn named_from(segs: &Vec<Vec<u8>>, from: usize) -> (r: Vec<Vec<u8>>)
    requires
        from <= segs@.len(),
    ensures
        r@.map_values(|v: Vec<u8>| v@) == named(segs@.map_values(|v: Vec<u8>| v@).skip(
            from as int,
        )),
{
    let ghost all = segs@.map_values(|v: Vec<u8>| v@);
    let mut out: Vec<Vec<u8>> = Vec::new();
    let mut i = from;
    proof {
        assert(all.skip(from as int).take(0) =~= Seq::<Seq<u8>>::empty());
    }
    while i < segs.len()
        invariant
            from <= i <= segs@.len(),
            all == segs@.map_values(|v: Vec<u8>| v@),
            out@.map_values(|v: Vec<u8>| v@) == named(all.skip(from as int).take(i - from)),
        decreases segs@.len() - i,
    {
        let ghost prev = all.skip(from as int).take(i - from);
        assert(all.skip(from as int).take(i - from + 1).drop_last() =~= prev);
        assert(all.skip(from as int).take(i - from + 1).last() == segs@[i as int]@);
        if is_named_exec(segs[i].as_slice()) {
            out.push(segs[i].clone());
            assert(out@.map_values(|v: Vec<u8>| v@) =~= named(prev).push(segs@[i as int]@));
        }
        i = i + 1;
    }
    assert(all.skip(from as int).take(segs@.len() - from) =~= all.skip(from as int));
    out
}

/// The components of a path (see `components`).
pub fn path_components(p: &[u8]) -> (r: Vec<Vec<u8>>)
    ensures
        r@.map_values(|v: Vec<u8>| v@) == components(p@),
{
    let segs = path_segments(p);
    proof {
        lemma_segments_len(p@);
    }
    let ghost all = segs@.map_values(|v: Vec<u8>| v@);
    assert(all.len() >= 1);
    assert(all[0] == segs@[0]@);
    if p.len() > 0 && p[0] == 47u8 {
        let rest = named_from(&segs, 1);
        let mut first: Vec<u8> = Vec::new();
        first.push(47u8);
        assert(first@ =~= root_component());
        let mut out: Vec<Vec<u8>> = Vec::new();
        out.push(first);
        assert(out@.map_values(|v: Vec<u8>| v@) =~= seq![root_component()] + rest@.map_values(
            |v: Vec<u8>| v@,
        ).take(0));
        let mut i: usize = 0;
        while i < rest.len()
            invariant
                i <= rest@.len(),
                out@.map_values(|v: Vec<u8>| v@) == seq![root_component()] + rest@.map_values(
                    |v: Vec<u8>| v@,
                ).take(i as int),
            decreases rest@.len() - i,
        {
            let ghost prev = out@.map_values(|v: Vec<u8>| v@);
            out.push(rest[i].clone());
            assert(out@.map_values(|v: Vec<u8>| v@) =~= prev.push(rest@[i as int]@));
            assert(rest@.map_values(|v: Vec<u8>| v@).take(i + 1) =~= rest@.map_values(
                |v: Vec<u8>| v@,
            ).take(i as int).push(rest@[i as int]@));
            assert(out@.map_values(|v: Vec<u8>| v@) =~= seq![root_component()] + rest@.map_values(
                |v: Vec<u8>| v@,
            ).take(i + 1));
            i = i + 1;
        }
        assert(rest@.map_values(|v: Vec<u8>| v@).take(rest@.len() as int) =~= rest@.map_values(
            |v: Vec<u8>| v@,
        ));
        assert(all.drop_first() =~= all.skip(1));
        out
    } else if segs[0].len() == 1 && segs[0][0] == 46u8 {
        let rest = named_from(&segs, 1);
        let mut first: Vec<u8> = Vec::new();
        first.push(46u8);
        assert(first@ =~= cur_component());
        let mut out: Vec<Vec<u8>> = Vec::new();
        out.push(first);
        assert(out@.map_values(|v: Vec<u8>| v@) =~= seq![cur_component()] + rest@.map_values(
            |v: Vec<u8>| v@,
        ).take(0));
        let mut i: usize = 0;
        while i < rest.len()
            invariant
                i <= rest@.len(),
                out@.map_values(|v: Vec<u8>| v@) == seq![cur_component()] + rest@.map_values(
                    |v: Vec<u8>| v@,
                ).take(i as int),
            decreases rest@.len() - i,
        {
            let ghost prev = out@.map_values(|v: Vec<u8>| v@);
            out.push(rest[i].clone());
            assert(out@.map_values(|v: Vec<u8>| v@) =~= prev.push(rest@[i as int]@));
            assert(rest@.map_values(|v: Vec<u8>| v@).take(i + 1) =~= rest@.map_values(
                |v: Vec<u8>| v@,
            ).take(i as int).push(rest@[i as int]@));
            assert(out@.map_values(|v: Vec<u8>| v@) =~= seq![cur_component()] + rest@.map_values(
                |v: Vec<u8>| v@,
            ).take(i + 1));
            i = i + 1;
        }
        assert(rest@.map_values(|v: Vec<u8>| v@).take(rest@.len() as int) =~= rest@.map_values(
            |v: Vec<u8>| v@,
        ));
        assert(all.drop_first() =~= all.skip(1));
        assert(is_dot(all[0]));
        out
    } else {
        let r = named_from(&segs, 0);
        assert(all.skip(0) =~= all);
        r
    }
}


pub open spec fn views(v: Seq<Vec<u8>>) -> Seq<Seq<u8>> {
    v.map_values(|x: Vec<u8>| x@)
}

/// `path` starts with `base` when the components of `base` are a prefix of its components.
pub open spec fn path_starts_with(path: Seq<u8>, base: Seq<u8>) -> bool {
    let a = components(path);
    let b = components(base);
    b.len() <= a.len() && a.take(b.len() as int) == b
}

/// Two paths are equal when their components are equal.
pub open spec fn path_equal(a: Seq<u8>, b: Seq<u8>) -> bool {
    components(a) == components(b)
}

pub fn bytes_equal(a: &[u8], b: &[u8]) -> (r: bool)
    ensures
        r == (a@ == b@),
{
    if a.len() != b.len() {
        return false;
    }
    let mut i: usize = 0;
    while i < a.len()
        invariant
            a@.len() == b@.len(),
            i <= a@.len(),
            forall|k: int| 0 <= k < i ==> a@[k] == b@[k],
        decreases a@.len() - i,
    {
        if a[i] != b[i] {
            return false;
        }
        i = i + 1;
    }
    assert(a@ =~= b@);
    true
}

/// Whether the first `n` elements of two component lists agree.
fn components_agree(a: &Vec<Vec<u8>>, b: &Vec<Vec<u8>>, n: usize) -> (r: bool)
    requires
        n <= a@.len(),
        n <= b@.len(),
    ensures
        r == (views(a@).take(n as int) == views(b@).take(n as int)),
{
    let mut i: usize = 0;
    while i < n
        invariant
            n <= a@.len(),
            n <= b@.len(),
            i <= n,
            forall|k: int| 0 <= k < i ==> a@[k]@ == b@[k]@,
        decreases n - i,
    {
        if !bytes_equal(a[i].as_slice(), b[i].as_slice()) {
            proof {
                assert(views(a@).take(n as int)[i as int] == a@[i as int]@);
                assert(views(b@).take(n as int)[i as int] == b@[i as int]@);
            }
            return false;
        }
        i = i + 1;
    }
    assert(views(a@).take(n as int) =~= views(b@).take(n as int));
    true
}

/// Whether `path` starts with `base`, component by component.
pub fn starts_with(path: &[u8], base: &[u8]) -> (r: bool)
    ensures
        r == path_starts_with(path@, base@),
{
    let a = path_components(path);
    let b = path_components(base);
    if b.len() > a.len() {
        return false;
    }
    let r = components_agree(&a, &b, b.len());
    assert(views(b@).take(b@.len() as int) =~= views(b@));
    r
}

/// Whether two paths have the same components.
pub fn same_path(x: &[u8], y: &[u8]) -> (r: bool)
    ensures
        r == path_equal(x@, y@),
{
    let a = path_components(x);
    let b = path_components(y);
    if a.len() != b.len() {
        return false;
    }
    let r = components_agree(&a, &b, a.len());
    assert(views(a@).take(a@.len() as int) =~= views(a@));
    assert(views(b@).take(b@.len() as int) =~= views(b@));
    r
}

/// Whether a component is an ordinary name (not the root, `.` or `..`).
pub open spec fn is_normal_component(c: Seq<u8>) -> bool {
    !(c == root_component()) && !is_dot(c) && !is_dot_dot(c)
}

/// The file name of a path: its last component, when that is an ordinary name.
pub open spec fn file_name(p: Seq<u8>) -> Option<Seq<u8>> {
    let c = components(p);
    if c.len() > 0 && is_normal_component(c.last()) {
        Some(c.last())
    } else {
        None
    }
}

/// The position of the last `.` in a name, if any.
pub open spec fn last_dot(name: Seq<u8>) -> Option<int>
    decreases name.len(),
{
    if name.len() == 0 {
        None
    } else if name.last() == 46u8 {
        Some(name.len() - 1)
    } else {
        last_dot(name.drop_last())
    }
}

/// The extension of a file name: the text after its last `.`, when something precedes that dot.
pub open spec fn name_extension(name: Seq<u8>) -> Option<Seq<u8>> {
    match last_dot(name) {
        Some(k) => if k > 0 && !is_dot_dot(name) {
            Some(name.skip(k + 1))
        } else {
            None
        },
        None => None,
    }
}

/// The stem of a file name: the text before its last `.`, when something precedes that dot.
pub open spec fn name_stem(name: Seq<u8>) -> Seq<u8> {
    match last_dot(name) {
        Some(k) => if k > 0 && !is_dot_dot(name) {
            name.take(k)
        } else {
            name
        },
        None => name,
    }
}

proof fn lemma_last_dot_bounds(name: Seq<u8>)
    ensures
        match last_dot(name) {
            Some(k) => 0 <= k < name.len() && name[k] == 46u8 && forall|j: int|
                k < j < name.len() ==> name[j] != 46u8,
            None => forall|j: int| 0 <= j < name.len() ==> name[j] != 46u8,
        },
    decreases name.len(),
{
    if name.len() > 0 {
        lemma_last_dot_bounds(name.drop_last());
        if name.last() != 46u8 {
            match last_dot(name.drop_last()) {
                Some(k) => {
                    assert forall|j: int| k < j < name.len() implies name[j] != 46u8 by {
                        if j < name.len() - 1 {
                            assert(name[j] == name.drop_last()[j]);
                        }
                    }
                },
                None => {
                    assert forall|j: int| 0 <= j < name.len() implies name[j] != 46u8 by {
                        if j < name.len() - 1 {
                            assert(name[j] == name.drop_last()[j]);
                        }
                    }
                },
            }
        }
    }
}

fn find_last_dot(name: &[u8]) -> (r: Option<usize>)
    ensures
        match r {
            Some(k) => last_dot(name@) == Some(k as int),
            None => last_dot(name@) is None,
        },
{
    let mut i = name.len();
    while i > 0
        invariant
            i <= name@.len(),
            forall|j: int| i <= j < name@.len() ==> name@[j] != 46u8,
        decreases i,
    {
        if name[i - 1] == 46u8 {
            proof {
                lemma_last_dot_bounds(name@);
                match last_dot(name@) {
                    Some(k) => {
                        assert(k == i - 1);
                    },
                    None => {},
                }
            }
            return Some(i - 1);
        }
        i = i - 1;
    }
    proof {
        lemma_last_dot_bounds(name@);
    }
    None
}

/// The file name of a path, if it has one.
pub fn path_file_name(p: &[u8]) -> (r: Option<Vec<u8>>)
    ensures
        match file_name(p@) {
            Some(n) => r matches Some(v) && v@ == n,
            None => r is None,
        },
{
    let c = path_components(p);
    if c.len() == 0 {
        return None;
    }
    let last = &c[c.len() - 1];
    assert(views(c@).last() == last@);
    let is_root = last.len() == 1 && last[0] == 47u8;
    assert(is_root == (last@ == root_component())) by {
        if last@.len() == 1 {
            assert(is_root ==> last@ =~= root_component());
        }
    }
    let dot = last.len() == 1 && last[0] == 46u8;
    let dot_dot = last.len() == 2 && last[0] == 46u8 && last[1] == 46u8;
    if is_root || dot || dot_dot {
        None
    } else {
        Some(last.clone())
    }
}

/// The extension of a file name.
pub fn extension_of(name: &[u8]) -> (r: Option<Vec<u8>>)
    ensures
        match name_extension(name@) {
            Some(e) => r matches Some(v) && v@ == e,
            None => r is None,
        },
{
    match find_last_dot(name) {
        Some(k) => {
            let dot_dot = name.len() == 2 && name[0] == 46u8 && name[1] == 46u8;
            if k > 0 && !dot_dot {
                proof {
                    lemma_last_dot_bounds(name@);
                }
                let mut out: Vec<u8> = Vec::new();
                let mut i = k + 1;
                while i < name.len()
                    invariant
                        k + 1 <= i <= name@.len(),
                        out@ == name@.subrange(k + 1, i as int),
                    decreases name@.len() - i,
                {
                    out.push(name[i]);
                    assert(name@.subrange(k + 1, i + 1) =~= name@.subrange(k + 1, i as int).push(
                        name@[i as int],
                    ));
                    i = i + 1;
                }
                assert(name@.skip(k + 1) =~= name@.subrange(k + 1, name@.len() as int));
                Some(out)
            } else {
                None
            }
        },
        None => None,
    }
}

/// The stem of a file name.
pub fn stem_of(name: &[u8]) -> (r: Vec<u8>)
    ensures
        r@ == name_stem(name@),
{
    let end = match find_last_dot(name) {
        Some(k) => {
            let dot_dot = name.len() == 2 && name[0] == 46u8 && name[1] == 46u8;
            proof {
                lemma_last_dot_bounds(name@);
            }
            if k > 0 && !dot_dot {
                k
            } else {
                name.len()
            }
        },
        None => name.len(),
    };
    let mut out: Vec<u8> = Vec::new();
    let mut i: usize = 0;
    while i < end
        invariant
            end <= name@.len(),
            i <= end,
            out@ == name@.take(i as int),
        decreases end - i,
    {
        out.push(name[i]);
        assert(name@.take(i + 1) =~= name@.take(i as int).push(name@[i as int]));
        i = i + 1;
    }
    assert(name@.take(name@.len() as int) =~= name@);
    out
}

/// `PathBuf::push` on Unix: an absolute addition replaces the path; otherwise
/// a separator is inserted unless the base is empty or already ends in one.
pub open spec fn join(base: Seq<u8>, add: Seq<u8>) -> Seq<u8> {
    if is_absolute(add) {
        add
    } else if base.len() > 0 && base.last() != slash() {
        base.push(slash()) + add
    } else {
        base + add
    }
}

/// Join two paths.
pub fn join_path(base: &[u8], add: &[u8]) -> (r: Vec<u8>)
    ensures
        r@ == join(base@, add@),
{
    let mut out: Vec<u8> = Vec::new();
    if !(add.len() > 0 && add[0] == 47u8) {
        let mut i: usize = 0;
        while i < base.len()
            invariant
                i <= base@.len(),
                out@ == base@.take(i as int),
            decreases base@.len() - i,
        {
            out.push(base[i]);
            assert(base@.take(i + 1) =~= base@.take(i as int).push(base@[i as int]));
            i = i + 1;
        }
        assert(base@.take(base@.len() as int) =~= base@);
        if base.len() > 0 && base[base.len() - 1] != 47u8 {
            out.push(47u8);
        }
    }
    let ghost start = out@;
    let mut j: usize = 0;
    while j < add.len()
        invariant
            j <= add@.len(),
            out@ == start + add@.take(j as int),
        decreases add@.len() - j,
    {
        out.push(add[j]);
        assert(add@.take(j + 1) =~= add@.take(j as int).push(add@[j as int]));
        j = j + 1;
    }
    assert(add@.take(add@.len() as int) =~= add@);
    assert(out@ =~= join(base@, add@));
    out
}


/// The rank of a byte in path order: the separator sorts before every other byte.
pub open spec fn path_rank(x: u8) -> int {
    if x == slash() {
        0
    } else {
        x as int + 1
    }
}

/// Path order: byte by byte, with the separator lowest, and a prefix first. For
/// paths whose components are separated by single slashes (as a directory walk
/// yields them) this is the order of their component sequences.
pub open spec fn path_le(a: Seq<u8>, b: Seq<u8>) -> bool
    decreases a.len(),
{
    if a.len() == 0 {
        true
    } else if b.len() == 0 {
        false
    } else if path_rank(a[0]) < path_rank(b[0]) {
        true
    } else if path_rank(a[0]) > path_rank(b[0]) {
        false
    } else {
        path_le(a.drop_first(), b.drop_first())
    }
}

pub proof fn lemma_path_le_total(a: Seq<u8>, b: Seq<u8>)
    ensures
        path_le(a, b) || path_le(b, a),
    decreases a.len(),
{
    if a.len() > 0 && b.len() > 0 && path_rank(a[0]) == path_rank(b[0]) {
        lemma_path_le_total(a.drop_first(), b.drop_first());
    }
}

pub proof fn lemma_path_le_antisymmetric(a: Seq<u8>, b: Seq<u8>)
    requires
        path_le(a, b),
        path_le(b, a),
    ensures
        a == b,
    decreases a.len(),
{
    if a.len() > 0 && b.len() > 0 {
        lemma_path_le_antisymmetric(a.drop_first(), b.drop_first());
        assert(a[0] == b[0]);
        assert(a =~= seq![a[0]] + a.drop_first());
        assert(b =~= seq![b[0]] + b.drop_first());
    }
}

pub proof fn lemma_path_le_transitive(a: Seq<u8>, b: Seq<u8>, c: Seq<u8>)
    requires
        path_le(a, b),
        path_le(b, c),
    ensures
        path_le(a, c),
    decreases a.len(),
{
    if a.len() > 0 && b.len() > 0 && c.len() > 0 {
        if path_rank(a[0]) == path_rank(b[0]) && path_rank(b[0]) == path_rank(c[0]) {
            lemma_path_le_transitive(a.drop_first(), b.drop_first(), c.drop_first());
        }
    }
}

pub proof fn lemma_path_le_reflexive(a: Seq<u8>)
    ensures
        path_le(a, a),
    decreases a.len(),
{
    if a.len() > 0 {
        lemma_path_le_reflexive(a.drop_first());
    }
}

/// Whether `a` comes no later than `b` in path order.
pub fn path_le_exec(a: &[u8], b: &[u8]) -> (r: bool)
    ensures
        r == path_le(a@, b@),
{
    let mut i: usize = 0;
    assert(a@.skip(0) =~= a@);
    assert(b@.skip(0) =~= b@);
    while i < a.len() && i < b.len()
        invariant
            i <= a@.len(),
            i <= b@.len(),
            path_le(a@, b@) == path_le(a@.skip(i as int), b@.skip(i as int)),
        decreases a@.len() - i,
    {
        let x = a[i];
        let y = b[i];
        let rx: u16 = if x == 47u8 { 0 } else { x as u16 + 1 };
        let ry: u16 = if y == 47u8 { 0 } else { y as u16 + 1 };
        assert(a@.skip(i as int)[0] == x);
        assert(b@.skip(i as int)[0] == y);
        if rx < ry {
            return true;
        }
        if rx > ry {
            return false;
        }
        assert(a@.skip(i as int).drop_first() =~= a@.skip(i + 1));
        assert(b@.skip(i as int).drop_first() =~= b@.skip(i + 1));
        i = i + 1;
    }
    if i == a.len() {
        assert(a@.skip(i as int).len() == 0);
        true
    } else {
        assert(b@.skip(i as int).len() == 0);
        false
    }
}


/// Components joined with single separators.
pub open spec fn join_components(cs: Seq<Seq<u8>>) -> Seq<u8>
    decreases cs.len(),
{
    if cs.len() == 0 {
        Seq::empty()
    } else if cs.len() == 1 {
        cs[0]
    } else {
        join_components(cs.drop_last()).push(slash()) + cs.last()
    }
}

/// `Path::strip_prefix`, with the remainder rebuilt from its components: `None`
/// unless `base` is a prefix of `path` component by component; an empty base
/// leaves the path unchanged.
pub open spec fn strip_prefix(path: Seq<u8>, base: Seq<u8>) -> Option<Seq<u8>> {
    if !path_starts_with(path, base) {
        None
    } else if components(base).len() == 0 {
        Some(path)
    } else {
        Some(join_components(components(path).skip(components(base).len() as int)))
    }
}

/// Strip a base path from the front of a path (see `strip_prefix`).
pub fn strip_path_prefix(path: &[u8], base: &[u8]) -> (r: Option<Vec<u8>>)
    ensures
        match strip_prefix(path@, base@) {
            Some(p) => r matches Some(v) && v@ == p,
            None => r is None,
        },
{
    if !starts_with(path, base) {
        return None;
    }
    let bc = path_components(base);
    if bc.len() == 0 {
        return Some(vstd::slice::slice_to_vec(path));
    }
    let pc = path_components(path);
    let ghost rest = views(pc@).skip(bc@.len() as int);
    let mut out: Vec<u8> = Vec::new();
    let mut k = bc.len();
    proof {
        assert(views(pc@).len() == components(path@).len());
        assert(rest.take(0) =~= Seq::<Seq<u8>>::empty());
    }
    while k < pc.len()
        invariant
            bc@.len() <= k <= pc@.len(),
            rest == views(pc@).skip(bc@.len() as int),
            out@ == join_components(rest.take(k - bc@.len())),
        decreases pc@.len() - k,
    {
        let ghost prev = rest.take(k - bc@.len());
        assert(rest.take(k - bc@.len() + 1).drop_last() =~= prev);
        assert(rest.take(k - bc@.len() + 1).last() == pc@[k as int]@);
        if k > bc.len() {
            out.push(47u8);
        }
        let piece = &pc[k];
        let ghost before = out@;
        let mut m: usize = 0;
        while m < piece.len()
            invariant
                m <= piece@.len(),
                out@ == before + piece@.take(m as int),
            decreases piece@.len() - m,
        {
            out.push(piece[m]);
            assert(piece@.take(m + 1) =~= piece@.take(m as int).push(piece@[m as int]));
            m = m + 1;
        }
        proof {
            assert(piece@.take(piece@.len() as int) =~= piece@);
            if k == bc@.len() {
                assert(before =~= Seq::<u8>::empty());
                assert(out@ =~= piece@);
            }
        }
        k = k + 1;
    }
    assert(rest.take(pc@.len() - bc@.len()) =~= rest);
    Some(out)
}


/// Byte order (as `String` and `[u8]` compare): lexicographic, a prefix first.
pub open spec fn bytes_le(a: Seq<u8>, b: Seq<u8>) -> bool
    decreases a.len(),
{
    if a.len() == 0 {
        true
    } else if b.len() == 0 {
        false
    } else if a[0] < b[0] {
        true
    } else if a[0] > b[0] {
        false
    } else {
        bytes_le(a.drop_first(), b.drop_first())
    }
}

pub proof fn lemma_bytes_le_total(a: Seq<u8>, b: Seq<u8>)
    ensures
        bytes_le(a, b) || bytes_le(b, a),
    decreases a.len(),
{
    if a.len() > 0 && b.len() > 0 && a[0] == b[0] {
        lemma_bytes_le_total(a.drop_first(), b.drop_first());
    }
}

pub proof fn lemma_bytes_le_antisymmetric(a: Seq<u8>, b: Seq<u8>)
    requires
        bytes_le(a, b),
        bytes_le(b, a),
    ensures
        a == b,
    decreases a.len(),
{
    if a.len() > 0 && b.len() > 0 {
        lemma_bytes_le_antisymmetric(a.drop_first(), b.drop_first());
        assert(a =~= seq![a[0]] + a.drop_first());
        assert(b =~= seq![b[0]] + b.drop_first());
    }
}

pub proof fn lemma_bytes_le_transitive(a: Seq<u8>, b: Seq<u8>, c: Seq<u8>)
    requires
        bytes_le(a, b),
        bytes_le(b, c),
    ensures
        bytes_le(a, c),
    decreases a.len(),
{
    if a.len() > 0 && b.len() > 0 && c.len() > 0 {
        if a[0] == b[0] && b[0] == c[0] {
            lemma_bytes_le_transitive(a.drop_first(), b.drop_first(), c.drop_first());
        }
    }
}

pub proof fn lemma_bytes_le_reflexive(a: Seq<u8>)
    ensures
        bytes_le(a, a),
    decreases a.len(),
{
    if a.len() > 0 {
        lemma_bytes_le_reflexive(a.drop_first());
    }
}

/// Whether `a` comes no later than `b` in byte order.
pub fn bytes_le_exec(a: &[u8], b: &[u8]) -> (r: bool)
    ensures
        r == bytes_le(a@, b@),
{
    let mut i: usize = 0;
    assert(a@.skip(0) =~= a@);
    assert(b@.skip(0) =~= b@);
    while i < a.len() && i < b.len()
        invariant
            i <= a@.len(),
            i <= b@.len(),
            bytes_le(a@, b@) == bytes_le(a@.skip(i as int), b@.skip(i as int)),
        decreases a@.len() - i,
    {
        assert(a@.skip(i as int)[0] == a[i as int]);
        assert(b@.skip(i as int)[0] == b[i as int]);
        if a[i] < b[i] {
            return true;
        }
        if a[i] > b[i] {
            return false;
        }
        assert(a@.skip(i as int).drop_first() =~= a@.skip(i + 1));
        assert(b@.skip(i as int).drop_first() =~= b@.skip(i + 1));
        i = i + 1;
    }
    if i == a.len() {
        assert(a@.skip(i as int).len() == 0);
        true
    } else {
        assert(b@.skip(i as int).len() == 0);
        false
    }
}


/// Segments of two paths joined by a separator are the segments of each.
pub proof fn lemma_segments_concat(x: Seq<u8>, y: Seq<u8>)
    ensures
        segments(x.push(slash()) + y) == segments(x) + segments(y),
    decreases y.len(),
{
    let z = x.push(slash()) + y;
    if y.len() == 0 {
        assert(z =~= x.push(slash()));
        assert(z.drop_last() =~= x);
        assert(segments(x) + segments(y) =~= segments(x).push(Seq::<u8>::empty()));
    } else {
        lemma_segments_concat(x, y.drop_last());
        assert(z.drop_last() =~= x.push(slash()) + y.drop_last());
        assert(z.last() == y.last());
        lemma_segments_len(y.drop_last());
        let t = segments(y.drop_last());
        let s = segments(x) + t;
        if y.last() == slash() {
            assert(s.push(Seq::<u8>::empty()) =~= segments(x) + t.push(Seq::<u8>::empty()));
        } else {
            assert(s.last() == t.last());
            assert(s.update(s.len() - 1, s.last().push(y.last()))
                =~= segments(x) + t.update(t.len() - 1, t.last().push(y.last())));
        }
    }
}

/// The named segments of two lists are those of each.
pub proof fn lemma_named_concat(a: Seq<Seq<u8>>, b: Seq<Seq<u8>>)
    ensures
        named(a + b) == named(a) + named(b),
    decreases b.len(),
{
    if b.len() == 0 {
        assert(a + b =~= a);
        assert(named(a) + named(b) =~= named(a));
    } else {
        lemma_named_concat(a, b.drop_last());
        assert((a + b).drop_last() =~= a + b.drop_last());
        assert((a + b).last() == b.last());
        if is_named(b.last()) {
            assert((named(a) + named(b.drop_last())).push(b.last()) =~= named(a) + named(b.drop_last()).push(b.last()));
        }
    }
}

/// Joining a relative path that does not start with `.` onto an absolute path
/// appends its components.
pub proof fn lemma_join_components(root: Seq<u8>, rel: Seq<u8>)
    requires
        is_absolute(root),
        rel.len() > 0,
        !is_absolute(rel),
        !is_dot(segments(rel)[0]),
    ensures
        components(join(root, rel)) == components(root) + components(rel),
{
    lemma_segments_len(rel);
    let j = join(root, rel);
    let rc = seq![root_component()];
    if root.last() != slash() {
        assert(j == root.push(slash()) + rel);
        lemma_segments_concat(root, rel);
        lemma_segments_len(root);
        assert(is_absolute(j));
        assert((segments(root) + segments(rel)).drop_first() =~= segments(root).drop_first() + segments(rel));
        lemma_named_concat(segments(root).drop_first(), segments(rel));
        assert(components(j) == rc + named(segments(j).drop_first()));
        assert(rc + (named(segments(root).drop_first()) + named(segments(rel)))
            =~= (rc + named(segments(root).drop_first())) + named(segments(rel)));
    } else {
        let r = root.drop_last();
        assert(root =~= r.push(slash()));
        assert(j == root + rel);
        assert(j =~= r.push(slash()) + rel);
        lemma_segments_concat(r, rel);
        lemma_segments_len(r);
        assert(is_absolute(j));
        assert(segments(root) == segments(r).push(Seq::<u8>::empty()));
        assert(segments(root).drop_first() =~= segments(r).drop_first().push(Seq::<u8>::empty()));
        let x = segments(r).drop_first();
        assert(x.push(Seq::<u8>::empty()).drop_last() =~= x);
        assert(!is_named(Seq::<u8>::empty()));
        assert(named(segments(root).drop_first()) == named(segments(r).drop_first()));
        assert((segments(r) + segments(rel)).drop_first() =~= segments(r).drop_first() + segments(rel));
        lemma_named_concat(segments(r).drop_first(), segments(rel));
        assert(rc + (named(segments(r).drop_first()) + named(segments(rel)))
            =~= (rc + named(segments(r).drop_first())) + named(segments(rel)));
    }
}


/// A path followed by a separator and more bytes starts with that path, component-wise.
pub proof fn lemma_child_starts_with(x: Seq<u8>, y: Seq<u8>)
    requires
        x.len() > 0,
    ensures
        path_starts_with(x.push(slash()) + y, x),
{
    let z = x.push(slash()) + y;
    lemma_segments_concat(x, y);
    lemma_segments_len(x);
    lemma_segments_len(y);
    let sx = segments(x);
    let sy = segments(y);
    assert(segments(z) == sx + sy);
    assert(z[0] == x[0]);
    assert((sx + sy)[0] == sx[0]);
    assert((sx + sy).drop_first() =~= sx.drop_first() + sy);
    lemma_named_concat(sx.drop_first(), sy);
    lemma_named_concat(sx, sy);
    let a = components(z);
    let b = components(x);
    if is_absolute(x) {
        let rc = seq![root_component()];
        assert(a == rc + (named(sx.drop_first()) + named(sy)));
        assert(a =~= b + named(sy));
    } else if is_dot(sx[0]) {
        let cc = seq![cur_component()];
        assert(a == cc + (named(sx.drop_first()) + named(sy)));
        assert(a =~= b + named(sy));
    } else {
        assert(a =~= b + named(sy));
    }
    assert(a.take(b.len() as int) =~= b);
}

} // verus!
