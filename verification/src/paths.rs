//! Pure path model and the rebasing helper.
//!
//! A path is modelled as the sequence of its name components, so `/ws/a/x.rs`
//! is the three components `ws`, `a`, `x.rs`. Whether a path is absolute or
//! relative is the caller's concern: rebasing and containment only look at
//! components. `rebase` moves a path from one base to another and reports an
//! explicit error, naming the offending path and base, when the path does not
//! lie under the expected base.

use vstd::prelude::*;

verus! {

/// A filesystem path as a sequence of name components.
#[derive(Debug)]
pub struct WsPath {
    pub segments: Vec<String>,
}

impl View for WsPath {
    type V = Seq<Seq<char>>;

    open spec fn view(&self) -> Seq<Seq<char>> {
        self.segments.deep_view()
    }
}

impl DeepView for WsPath {
    type V = Seq<Seq<char>>;

    open spec fn deep_view(&self) -> Seq<Seq<char>> {
        self.view()
    }
}

/// `base` is a (not necessarily strict) component-wise prefix of `p`.
pub open spec fn is_prefix_of(base: Seq<Seq<char>>, p: Seq<Seq<char>>) -> bool {
    base.len() <= p.len() && (forall|i: int| 0 <= i < base.len() ==> base[i] == p[i])
}

/// `p` is a strict descendant of `base`: it lies under `base` and is not
/// `base` itself.
pub open spec fn strictly_under(p: Seq<Seq<char>>, base: Seq<Seq<char>>) -> bool {
    is_prefix_of(base, p) && base.len() < p.len()
}

/// The path obtained by re-rooting `p` from `from` to `to`: `to` followed by
/// the remainder of `p` past `from`. Meaningful when `is_prefix_of(from, p)`.
pub open spec fn rebased(
    p: Seq<Seq<char>>,
    from: Seq<Seq<char>>,
    to: Seq<Seq<char>>,
) -> Seq<Seq<char>> {
    to + p.skip(from.len() as int)
}

/// A path did not lie under the base it was expected to lie under. Carries
/// both, so the caller can report which path broke the expectation.
#[derive(Debug)]
pub struct PathNotUnderBaseError {
    pub path: WsPath,
    pub base: WsPath,
}

impl WsPath {
    /// Wrap a component vector as a path.
    pub fn new(segments: Vec<String>) -> (r: WsPath)
        ensures
            r@ == segments.deep_view(),
    {
        WsPath { segments }
    }

    /// The number of components.
    pub fn len(&self) -> (r: usize)
        ensures
            r == self@.len(),
    {
        self.segments.len()
    }

    /// A copy of the first `n` components.
    pub fn prefix_of_len(&self, n: usize) -> (r: WsPath)
        requires
            n <= self@.len(),
        ensures
            r@ == self@.take(n as int),
    {
        let mut segments: Vec<String> = Vec::new();
        let mut i: usize = 0;
        while i < n
            invariant
                i <= n,
                n <= self.segments.len(),
                segments.len() == i,
                forall|j: int| 0 <= j < i ==> segments.deep_view()[j] == self@[j],
            decreases n - i,
        {
            segments.push(self.segments[i].clone());
            i += 1;
        }
        let r = WsPath { segments };
        proof {
            assert(r@ =~= self@.take(n as int));
        }
        r
    }

    /// A copy of the whole path.
    pub fn duplicate(&self) -> (r: WsPath)
        ensures
            r@ == self@,
    {
        let r = self.prefix_of_len(self.segments.len());
        proof {
            assert(self@.take(self@.len() as int) =~= self@);
        }
        r
    }

    /// A copy of the path with its last component removed.
    pub fn parent(&self) -> (r: WsPath)
        requires
            self@.len() > 0,
        ensures
            r@ == self@.drop_last(),
    {
        self.prefix_of_len(self.segments.len() - 1)
    }

    /// A copy of the path with one component appended.
    pub fn child(&self, name: &String) -> (r: WsPath)
        ensures
            r@ == self@.push(name@),
    {
        let mut r = self.duplicate();
        r.segments.push(name.clone());
        proof {
            assert(r@ =~= self@.push(name@));
        }
        r
    }

    /// The last component.
    pub fn last_segment(&self) -> (r: &String)
        requires
            self@.len() > 0,
        ensures
            r@ == self@.last(),
    {
        &self.segments[self.segments.len() - 1]
    }

    /// Whether `base` is a component-wise prefix of `self`.
    pub fn starts_with(&self, base: &WsPath) -> (r: bool)
        ensures
            r == is_prefix_of(base@, self@),
    {
        let n = base.segments.len();
        if n > self.segments.len() {
            return false;
        }
        let mut i: usize = 0;
        while i < n
            invariant
                i <= n,
                n == base@.len(),
                n <= self@.len(),
                n == base.segments.len(),
                n <= self.segments.len(),
                forall|j: int| 0 <= j < i ==> base@[j] == self@[j],
            decreases n - i,
        {
            if !(self.segments[i] == base.segments[i]) {
                proof {
                    assert(!is_prefix_of(base@, self@)) by {
                        assert(base@[i as int] != self@[i as int]);
                    }
                }
                return false;
            }
            i += 1;
        }
        true
    }
}

/// Re-root `path` from `from_base` to `to_base`: the result is `to_base`
/// followed by the remainder of `path` past `from_base`. `path` must be equal
/// to or a descendant of `from_base`; otherwise the call fails, reporting the
/// path and the base it was expected to lie under. No side effects.
pub fn rebase(path: &WsPath, from_base: &WsPath, to_base: &WsPath) -> (r: Result<
    WsPath,
    PathNotUnderBaseError,
>)
    ensures
        match r {
            Ok(p) => is_prefix_of(from_base@, path@) && p@ == rebased(path@, from_base@, to_base@),
            Err(e) => !is_prefix_of(from_base@, path@) && e.path@ == path@ && e.base@
                == from_base@,
        },
{
    if !path.starts_with(from_base) {
        return Err(
            PathNotUnderBaseError { path: path.duplicate(), base: from_base.duplicate() },
        );
    }
    let mut out = to_base.duplicate();
    let n = path.segments.len();
    let mut i: usize = from_base.segments.len();
    while i < n
        invariant
            from_base@.len() <= i <= n,
            n == path.segments.len(),
            n == path@.len(),
            out@ == to_base@ + path@.subrange(from_base@.len() as int, i as int),
        decreases n - i,
    {
        let seg = path.segments[i].clone();
        proof {
            assert((out@.push(seg@)) =~= to_base@ + path@.subrange(
                from_base@.len() as int,
                i + 1,
            ));
        }
        out.segments.push(seg);
        proof {
            assert(out@ =~= to_base@ + path@.subrange(from_base@.len() as int, i as int + 1));
        }
        i += 1;
    }
    proof {
        assert(out@ =~= rebased(path@, from_base@, to_base@));
    }
    Ok(out)
}

} // verus!
