use vstd::prelude::*;

verus! {

/// One component of a filesystem path, as the platform splits it.
pub enum PathComponent {
    /// A platform prefix such as a drive letter.
    Prefix,
    /// The root directory marker.
    RootDir,
    /// A `.` component.
    CurDir,
    /// A `..` component.
    ParentDir,
    /// An ordinary name.
    Normal(String),
    /// A name that is not valid Unicode.
    NotUnicode,
}

#[derive(Debug, Clone, Copy, PartialEq, Eq, Structural)]
pub enum PathError {
    /// A component is not an ordinary, separator-free name.
    InvalidComponent,
    /// A remote-supplied name would leave its destination root.
    TraversalAttempt,
}

pub open spec fn is_separator(c: char) -> bool {
    c == '/' || c == '\\'
}

pub open spec fn has_separator(s: Seq<char>) -> bool {
    exists|i: int| 0 <= i < s.len() && is_separator(#[trigger] s[i])
}

pub open spec fn is_dot_name(s: Seq<char>) -> bool {
    s == seq!['.'] || s == seq!['.', '.']
}

/// An ordinary name: not empty, not `.` or `..`, and free of separators.
pub open spec fn normal_name_ok(s: Seq<char>) -> bool {
    s.len() > 0 && !is_dot_name(s) && !has_separator(s)
}

pub open spec fn component_ok(c: PathComponent, must_be_relative: bool) -> bool {
    match c {
        PathComponent::Normal(s) => normal_name_ok(s@),
        PathComponent::RootDir => !must_be_relative,
        _ => false,
    }
}

pub open spec fn components_ok(cs: Seq<PathComponent>, must_be_relative: bool) -> bool {
    forall|i: int| 0 <= i < cs.len() ==> component_ok(#[trigger] cs[i], must_be_relative)
}

/// The ordinary names among `cs`, in order.
pub open spec fn normal_parts(cs: Seq<PathComponent>) -> Seq<Seq<char>>
    decreases cs.len(),
{
    if cs.len() == 0 {
        seq![]
    } else {
        let rest = normal_parts(cs.drop_last());
        match cs.last() {
            PathComponent::Normal(s) => rest.push(s@),
            _ => rest,
        }
    }
}

/// How many root markers `cs` holds.
pub open spec fn root_count(cs: Seq<PathComponent>) -> nat
    decreases cs.len(),
{
    if cs.len() == 0 {
        0
    } else {
        let rest = root_count(cs.drop_last());
        match cs.last() {
            PathComponent::RootDir => rest + 1,
            _ => rest,
        }
    }
}

/// The parts joined by single `/` characters.
pub open spec fn join_parts(parts: Seq<Seq<char>>) -> Seq<char>
    decreases parts.len(),
{
    if parts.len() == 0 {
        seq![]
    } else if parts.len() == 1 {
        parts[0]
    } else {
        parts[0] + seq!['/'] + join_parts(parts.drop_first())
    }
}

pub open spec fn slashes(n: nat) -> Seq<char> {
    Seq::new(n, |_i: int| '/')
}

/// The canonical string of a path: a `/` for each root marker, then the
/// ordinary names joined by `/`.
pub open spec fn encode_path(cs: Seq<PathComponent>) -> Seq<char> {
    slashes(root_count(cs)) + join_parts(normal_parts(cs))
}

pub proof fn lemma_join_push(ps: Seq<Seq<char>>, x: Seq<char>)
    requires
        ps.len() > 0,
    ensures
        join_parts(ps.push(x)) == join_parts(ps) + seq!['/'] + x,
    decreases ps.len(),
{
    if ps.len() == 1 {
        assert(ps.push(x).drop_first() =~= seq![x]);
        assert(join_parts(seq![x]) == x);
    } else {
        assert(ps.push(x).drop_first() =~= ps.drop_first().push(x));
        lemma_join_push(ps.drop_first(), x);
        assert(join_parts(ps.push(x)) =~= join_parts(ps) + seq!['/'] + x);
    }
}

fn has_separator_exec(s: &str) -> (r: bool)
    ensures
        r == has_separator(s@),
{
    let n = s.unicode_len();
    let mut i: usize = 0;
    while i < n
        invariant
            n == s@.len(),
            0 <= i <= n,
            forall|j: int| 0 <= j < i ==> !is_separator(#[trigger] s@[j]),
        decreases n - i,
    {
        let c = s.get_char(i);
        if c == '/' || c == '\\' {
            assert(is_separator(s@[i as int]));
            return true;
        }
        i += 1;
    }
    false
}

fn is_dot_name_exec(s: &str) -> (r: bool)
    ensures
        r == is_dot_name(s@),
{
    let n = s.unicode_len();
    if n == 1 {
        let r = s.get_char(0) == '.';
        if r {
            assert(s@ =~= seq!['.']);
        }
        r
    } else if n == 2 {
        let r = s.get_char(0) == '.' && s.get_char(1) == '.';
        if r {
            assert(s@ =~= seq!['.', '.']);
        }
        r
    } else {
        false
    }
}

fn normal_name_ok_exec(s: &str) -> (r: bool)
    ensures
        r == normal_name_ok(s@),
{
    s.unicode_len() > 0 && !is_dot_name_exec(s) && !has_separator_exec(s)
}

/// Encodes a path as a `/`-joined string of its ordinary names. A root
/// marker is accepted only when `must_be_relative` is false, and then
/// becomes a leading `/`; every other kind of component is rejected.
pub fn canonicalized_path_to_string(path: &Vec<PathComponent>, must_be_relative: bool) -> (r:
    Result<String, PathError>)
    ensures
        r is Ok <==> components_ok(path@, must_be_relative),
        r matches Ok(s) ==> s@ == encode_path(path@),
        r matches Err(e) ==> e == PathError::InvalidComponent,
{
    let mut prefix = String::new();
    let mut body = String::new();
    let mut n_parts: usize = 0;
    let mut i: usize = 0;
    proof {
        reveal_strlit("/");
    }
    while i < path.len()
        invariant
            0 <= i <= path@.len(),
            components_ok(path@.take(i as int), must_be_relative),
            prefix@ == slashes(root_count(path@.take(i as int))),
            body@ == join_parts(normal_parts(path@.take(i as int))),
            n_parts == normal_parts(path@.take(i as int)).len(),
            n_parts <= i,
            "/"@ == seq!['/'],
        decreases path@.len() - i,
    {
        let ghost pre = path@.take(i as int);
        let ghost next = path@.take(i + 1);
        assert(next.drop_last() =~= pre);
        assert(next.last() == path@[i as int]);
        match &path[i] {
            PathComponent::Normal(s) => {
                if !normal_name_ok_exec(s.as_str()) {
                    assert(!component_ok(path@[i as int], must_be_relative));
                    return Err(PathError::InvalidComponent);
                }
                if n_parts > 0 {
                    body.append("/");
                    proof {
                        lemma_join_push(normal_parts(pre), s@);
                    }
                } else {
                    assert(normal_parts(pre).push(s@) =~= seq![s@]);
                    assert(body@ + s@ =~= s@);
                }
                body.append(s.as_str());
                n_parts += 1;
            },
            PathComponent::RootDir => {
                if must_be_relative {
                    assert(!component_ok(path@[i as int], must_be_relative));
                    return Err(PathError::InvalidComponent);
                }
                prefix.append("/");
                assert(prefix@ =~= slashes(root_count(next)));
            },
            _ => {
                assert(!component_ok(path@[i as int], must_be_relative));
                return Err(PathError::InvalidComponent);
            },
        }
        assert(components_ok(next, must_be_relative)) by {
            assert forall|j: int| 0 <= j < next.len() implies component_ok(
                #[trigger] next[j],
                must_be_relative,
            ) by {
                if j < i {
                    assert(next[j] == pre[j]);
                }
            }
        }
        i += 1;
    }
    assert(path@.take(path@.len() as int) =~= path@);
    let mut out = prefix;
    out.append(body.as_str());
    Ok(out)
}


/// Splits `s` on `/`, with `cur` the part of the current segment read so far.
pub open spec fn split_from(s: Seq<char>, cur: Seq<char>) -> Seq<Seq<char>>
    decreases s.len(),
{
    if s.len() == 0 {
        seq![cur]
    } else if s[0] == '/' {
        seq![cur] + split_from(s.drop_first(), seq![])
    } else {
        split_from(s.drop_first(), cur.push(s[0]))
    }
}

/// The segments of a manifest name, split on `/`.
pub open spec fn split_name(s: Seq<char>) -> Seq<Seq<char>> {
    split_from(s, seq![])
}

/// A segment that may be joined onto a destination root: not `..`, and
/// free of separators.
pub open spec fn segment_ok(seg: Seq<char>) -> bool {
    seg != seq!['.', '.'] && !has_separator(seg)
}

pub open spec fn segments_ok(segs: Seq<Seq<char>>) -> bool {
    forall|i: int| 0 <= i < segs.len() ==> segment_ok(#[trigger] segs[i])
}

pub open spec fn string_views(v: Seq<String>) -> Seq<Seq<char>> {
    v.map_values(|s: String| s@)
}

/// Joins the segments of a manifest name onto `root`, refusing any segment
/// that could lead out of it.
pub fn get_export_path(root: Vec<String>, name: &str) -> (r: Result<Vec<String>, PathError>)
    ensures
        r is Ok <==> segments_ok(split_name(name@)),
        r matches Ok(p) ==> string_views(p@) == string_views(root@) + split_name(name@),
        r matches Err(e) ==> e == PathError::TraversalAttempt,
{
    let ghost root_v = string_views(root@);
    let n = name.unicode_len();
    let mut path = root;
    let mut start: usize = 0;
    let mut i: usize = 0;
    assert(name@.subrange(0, n as int) =~= name@);
    assert(name@.subrange(0, 0) =~= seq![]);
    assert(string_views(path@) + split_name(name@) =~= root_v + split_name(name@));
    assert(string_views(path@).skip(root_v.len() as int) =~= seq![]);
    while i <= n
        invariant
            n == name@.len(),
            root_v == string_views(root@),
            start <= i <= n,
            string_views(path@) + split_from(
                name@.subrange(i as int, n as int),
                name@.subrange(start as int, i as int),
            ) == root_v + split_name(name@),
            root_v.len() <= string_views(path@).len(),
            string_views(path@).take(root_v.len() as int) == root_v,
            segments_ok(string_views(path@).skip(root_v.len() as int)),
            segments_ok(split_name(name@)) ==> segments_ok(
                string_views(path@).skip(root_v.len() as int),
            ),
        decreases n + 1 - i,
    {
        let ghost rest = name@.subrange(i as int, n as int);
        let ghost cur = name@.subrange(start as int, i as int);
        let ghost pv = string_views(path@);
        if i == n || name.get_char(i) == '/' {
            let seg = name.substring_char(start, i).to_owned();
            assert(seg@ == cur);
            if i == n {
                assert(rest =~= seq![]);
            } else {
                assert(rest.drop_first() =~= name@.subrange(i + 1, n as int));
            }
            assert(split_from(rest, cur)[0] == cur);
            if validate_path_component(seg.as_str()).is_err() {
                assert(split_name(name@) =~= (pv + split_from(rest, cur)).skip(root_v.len() as int) + seq![]) by {
                    assert(pv + split_from(rest, cur) == root_v + split_name(name@));
                    assert((root_v + split_name(name@)).skip(root_v.len() as int) =~= split_name(name@));
                }
                assert(split_name(name@)[pv.len() - root_v.len()] == cur);
                return Err(PathError::TraversalAttempt);
            }
            path.push(seg);
            assert(string_views(path@) =~= pv.push(cur));
            assert(string_views(path@).skip(root_v.len() as int) =~= pv.skip(root_v.len() as int).push(cur));
            assert(string_views(path@).take(root_v.len() as int) =~= pv.take(root_v.len() as int));
            if i == n {
                assert(split_from(rest, cur) == seq![cur]);
                assert(pv.push(cur) =~= pv + split_from(rest, cur));
                assert(string_views(path@) == root_v + split_name(name@));
                assert(string_views(path@).skip(root_v.len() as int) =~= split_name(name@));
                return Ok(path);
            } else {
                assert(pv.push(cur) + split_from(name@.subrange(i + 1, n as int), seq![]) =~= pv
                    + split_from(rest, cur));
                assert(name@.subrange(i + 1, i + 1) =~= seq![]);
            }
            start = i + 1;
        } else {
            assert(rest.drop_first() =~= name@.subrange(i + 1, n as int));
            assert(cur.push(rest[0]) =~= name@.subrange(start as int, i + 1));
        }
        i += 1;
    }
    Err(PathError::TraversalAttempt)
}

/// Accepts a single segment of a manifest name: it must not be `..` and
/// must hold no separator.
pub fn validate_path_component(component: &str) -> (r: Result<(), PathError>)
    ensures
        r is Ok <==> segment_ok(component@),
        r matches Err(e) ==> e == PathError::TraversalAttempt,
{
    let dotdot = component.unicode_len() == 2 && component.get_char(0) == '.'
        && component.get_char(1) == '.';
    if dotdot {
        assert(component@ =~= seq!['.', '.']);
    }
    if dotdot || has_separator_exec(component) {
        Err(PathError::TraversalAttempt)
    } else {
        Ok(())
    }
}


proof fn lemma_split_append(p: Seq<char>, s: Seq<char>, cur: Seq<char>)
    requires
        forall|k: int| 0 <= k < p.len() ==> p[k] != '/',
    ensures
        split_from(p + s, cur) == split_from(s, cur + p),
    decreases p.len(),
{
    if p.len() == 0 {
        assert(p + s =~= s);
        assert(cur + p =~= cur);
    } else {
        assert((p + s)[0] == p[0]);
        assert((p + s).drop_first() =~= p.drop_first() + s);
        lemma_split_append(p.drop_first(), s, cur.push(p[0]));
        assert(cur.push(p[0]) + p.drop_first() =~= cur + p);
    }
}

proof fn lemma_split_join(parts: Seq<Seq<char>>)
    requires
        parts.len() > 0,
        forall|i: int| 0 <= i < parts.len() ==> !has_separator(#[trigger] parts[i]),
    ensures
        split_name(join_parts(parts)) == parts,
    decreases parts.len(),
{
    let p0 = parts[0];
    assert forall|k: int| 0 <= k < p0.len() implies p0[k] != '/' by {
        if p0[k] == '/' {
            assert(is_separator(p0[k]));
        }
    }
    if parts.len() == 1 {
        lemma_split_append(p0, seq![], seq![]);
        assert(p0 + seq![] =~= p0);
        assert(seq![] + p0 =~= p0);
        assert(parts =~= seq![p0]);
    } else {
        let rest = parts.drop_first();
        let tail = seq!['/'] + join_parts(rest);
        assert(join_parts(parts) =~= p0 + tail);
        lemma_split_append(p0, tail, seq![]);
        assert(seq![] + p0 =~= p0);
        assert(tail.drop_first() =~= join_parts(rest));
        assert forall|i: int| 0 <= i < rest.len() implies !has_separator(#[trigger] rest[i]) by {
            assert(rest[i] == parts[i + 1]);
        }
        lemma_split_join(rest);
        assert(seq![p0] + rest =~= parts);
    }
}

proof fn lemma_join_avoids(parts: Seq<Seq<char>>, c: char)
    requires
        c != '/',
        forall|i: int, k: int| 0 <= i < parts.len() && 0 <= k < parts[i].len() ==> #[trigger] parts[i][k] != c,
    ensures
        forall|k: int| 0 <= k < join_parts(parts).len() ==> #[trigger] join_parts(parts)[k] != c,
    decreases parts.len(),
{
    if parts.len() > 1 {
        let rest = parts.drop_first();
        assert forall|i: int, k: int| 0 <= i < rest.len() && 0 <= k < rest[i].len() implies #[trigger] rest[i][k] != c by {
            assert(rest[i] == parts[i + 1]);
        }
        lemma_join_avoids(rest, c);
        let j = join_parts(parts);
        assert forall|k: int| 0 <= k < j.len() implies #[trigger] j[k] != c by {
            let p0 = parts[0];
            if k < p0.len() {
                assert(j[k] == p0[k]);
            } else if k > p0.len() {
                assert(j[k] == join_parts(rest)[k - p0.len() - 1]);
            }
        }
    } else if parts.len() == 1 {
        assert forall|k: int| 0 <= k < join_parts(parts).len() implies #[trigger] join_parts(parts)[k] != c by {
            assert(join_parts(parts)[k] == parts[0][k]);
        }
    }
}

proof fn lemma_relative_components(cs: Seq<PathComponent>)
    requires
        components_ok(cs, true),
    ensures
        root_count(cs) == 0,
        normal_parts(cs).len() == cs.len(),
        forall|i: int| 0 <= i < cs.len() ==> normal_name_ok(#[trigger] normal_parts(cs)[i]),
    decreases cs.len(),
{
    if cs.len() > 0 {
        let pre = cs.drop_last();
        assert forall|i: int| 0 <= i < pre.len() implies component_ok(#[trigger] pre[i], true) by {
            assert(pre[i] == cs[i]);
        }
        lemma_relative_components(pre);
        assert(component_ok(cs[cs.len() - 1], true));
    }
}

/// A name encoded from a relative path holds no backslash and no leading
/// `/`, and splits back into exactly its ordinary names. Each of them is a
/// segment that `get_export_path` accepts, so resolving the name stays
/// under the destination root and never climbs out of it with `..`.
pub proof fn lemma_encoded_name_resolves_inside_root(cs: Seq<PathComponent>)
    requires
        components_ok(cs, true),
        cs.len() > 0,
    ensures
        forall|k: int| 0 <= k < encode_path(cs).len() ==> #[trigger] encode_path(cs)[k] != '\\',
        encode_path(cs).len() > 0 && encode_path(cs)[0] != '/',
        split_name(encode_path(cs)) == normal_parts(cs),
        segments_ok(split_name(encode_path(cs))),
{
    lemma_relative_components(cs);
    let parts = normal_parts(cs);
    assert(encode_path(cs) =~= join_parts(parts));
    assert forall|i: int| 0 <= i < parts.len() implies !has_separator(#[trigger] parts[i]) by {
        assert(normal_name_ok(parts[i]));
    }
    lemma_split_join(parts);
    assert forall|i: int, k: int| 0 <= i < parts.len() && 0 <= k < parts[i].len() implies #[trigger] parts[i][k] != '\\' by {
        assert(normal_name_ok(parts[i]));
        if parts[i][k] == '\\' {
            assert(is_separator(parts[i][k]));
        }
    }
    lemma_join_avoids(parts, '\\');
    assert(normal_name_ok(parts[0]));
    if parts.len() == 1 {
        assert(join_parts(parts)[0] == parts[0][0]);
    } else {
        assert(join_parts(parts)[0] == parts[0][0]);
    }
    if parts[0][0] == '/' {
        assert(is_separator(parts[0][0]));
    }
    assert forall|i: int| 0 <= i < parts.len() implies segment_ok(#[trigger] parts[i]) by {
        assert(normal_name_ok(parts[i]));
    }
}

proof fn lemma_split_after_slashes(k: nat, rest: Seq<char>)
    ensures
        split_name(slashes(k) + rest) == Seq::new(k, |_i: int| Seq::<char>::empty()) + split_name(rest),
    decreases k,
{
    if k == 0 {
        assert(slashes(0) + rest =~= rest);
        assert(Seq::new(0, |_i: int| Seq::<char>::empty()) + split_name(rest) =~= split_name(rest));
    } else {
        let x = slashes((k - 1) as nat) + rest;
        assert(slashes(k) + rest =~= seq!['/'] + x);
        assert((seq!['/'] + x).drop_first() =~= x);
        lemma_split_after_slashes((k - 1) as nat, rest);
        assert(Seq::new(k, |_i: int| Seq::<char>::empty()) + split_name(rest) =~= seq![Seq::<char>::empty()]
            + (Seq::new((k - 1) as nat, |_i: int| Seq::<char>::empty()) + split_name(rest)));
    }
}

proof fn lemma_parts_are_names(cs: Seq<PathComponent>, must_be_relative: bool)
    requires
        components_ok(cs, must_be_relative),
    ensures
        forall|i: int| 0 <= i < normal_parts(cs).len() ==> normal_name_ok(#[trigger] normal_parts(cs)[i]),
    decreases cs.len(),
{
    if cs.len() > 0 {
        let pre = cs.drop_last();
        assert forall|i: int| 0 <= i < pre.len() implies component_ok(#[trigger] pre[i], must_be_relative) by {
            assert(pre[i] == cs[i]);
        }
        lemma_parts_are_names(pre, must_be_relative);
        assert(component_ok(cs[cs.len() - 1], must_be_relative));
        let np = normal_parts(pre);
        if let PathComponent::Normal(last) = cs.last() {
            assert(normal_parts(cs) == np.push(last@));
            assert forall|i: int| 0 <= i < normal_parts(cs).len() implies normal_name_ok(
                #[trigger] normal_parts(cs)[i],
            ) by {
                if i < np.len() {
                    assert(normal_parts(cs)[i] == np[i]);
                }
            }
        }
    }
}

/// Every segment of an encoded name, rooted or not, is empty (the root
/// markers before the names) or an ordinary name: never `.` or `..`.
pub proof fn lemma_encoded_segments_are_names(cs: Seq<PathComponent>, must_be_relative: bool)
    requires
        components_ok(cs, must_be_relative),
    ensures
        forall|i: int|
            0 <= i < split_name(encode_path(cs)).len() ==> (#[trigger] split_name(encode_path(cs))[i]).len()
                == 0 || normal_name_ok(split_name(encode_path(cs))[i]),
        forall|i: int|
            0 <= i < split_name(encode_path(cs)).len() ==> !is_dot_name(
                #[trigger] split_name(encode_path(cs))[i],
            ),
{
    let parts = normal_parts(cs);
    lemma_parts_are_names(cs, must_be_relative);
    lemma_split_after_slashes(root_count(cs), join_parts(parts));
    let tail = split_name(join_parts(parts));
    if parts.len() > 0 {
        assert forall|i: int| 0 <= i < parts.len() implies !has_separator(#[trigger] parts[i]) by {
            assert(normal_name_ok(parts[i]));
        }
        lemma_split_join(parts);
    } else {
        assert(join_parts(parts) =~= seq![]);
        assert(tail == seq![Seq::<char>::empty()]);
    }
    let segs = split_name(encode_path(cs));
    let k = root_count(cs) as int;
    assert forall|i: int| 0 <= i < segs.len() implies (#[trigger] segs[i]).len() == 0 || normal_name_ok(segs[i]) by {
        if i >= k {
            assert(segs[i] == tail[i - k]);
        }
    }
    assert forall|i: int| 0 <= i < segs.len() implies !is_dot_name(#[trigger] segs[i]) by {
        if segs[i].len() == 0 {
            assert(seq!['.'].len() == 1);
        }
    }
}

} // verus!
