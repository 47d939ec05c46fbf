//! Bidirectional field views: a view extracted from a source value can be
//! edited and pushed back into it, leaving the other fields alone.

use vstd::prelude::*;

verus! {

/// Compiles only for types that may be copied bitwise; a compile-time check
/// with no runtime effect.
pub fn assert_copy<T: Copy>() {
}

/// A bidirectional view of `Src`: extraction and write-back, each pinned to
/// its specification-level direction.
pub trait LensView<Src>: Sized {
    /// The view a source projects to.
    spec fn view_of(src: Src) -> Self;

    /// The source, updated from the view.
    spec fn put(self, src: Src) -> Src;

    /// Extracts the view from the source.
    fn from_src(src: &Src) -> (r: Self)
        ensures
            r == Self::view_of(*src),
    ;

    /// Writes the view back into the source.
    fn to_src(&self, src: &mut Src)
        ensures
            *final(src) == self.put(*old(src)),
    ;
}

/// A record with a plain copied field and an owned field.
pub struct A {
    pub value: i32,
    pub value2: String,
}

/// The view of `A` that exposes only `value`.
pub struct AView {
    pub value: i32,
}

impl LensView<A> for AView {
    open spec fn view_of(src: A) -> AView {
        AView { value: src.value }
    }

    open spec fn put(self, src: A) -> A {
        A { value: self.value, value2: src.value2 }
    }

    fn from_src(src: &A) -> (r: AView) {
        AView { value: src.value }
    }

    fn to_src(&self, src: &mut A) {
        src.value = self.value;
    }
}

/// Get–put: writing back an unchanged view restores the source exactly.
pub proof fn lemma_aview_get_put(src: A)
    ensures
        AView::view_of(src).put(src) == src,
{
}

/// Put–get: a view that was just written back reads out unchanged.
pub proof fn lemma_aview_put_get(v: AView, src: A)
    ensures
        AView::view_of(v.put(src)) == v,
{
}

} // verus!
