use vstd::prelude::*;

verus! {

/// The byte that ends every frame; no other byte of a frame has this value.
pub const DELIMITER: u8 = 0;

/// The pieces of `b` between delimiters, as a split of the whole log yields
/// them: `n` delimiters give `n + 1` pieces, the last one after the final
/// delimiter.
pub open spec fn split_pieces(b: Seq<u8>) -> Seq<Seq<u8>>
    decreases b.len(),
{
    if b.len() == 0 {
        seq![seq![]]
    } else {
        let p = split_pieces(b.drop_last());
        if b.last() == DELIMITER {
            p.push(seq![])
        } else {
            p.drop_last().push(p.last().push(b.last()))
        }
    }
}

/// A frame body holds no delimiter.
pub open spec fn is_frame_body(f: Seq<u8>) -> bool {
    forall|j: int| 0 <= j < f.len() ==> f[j] != DELIMITER
}

/// The log made of the frames `fs`, each followed by a delimiter.
pub open spec fn join_frames(fs: Seq<Seq<u8>>) -> Seq<u8>
    decreases fs.len(),
{
    if fs.len() == 0 {
        seq![]
    } else {
        join_frames(fs.drop_last()) + fs.last().push(DELIMITER)
    }
}

pub proof fn lemma_split_pieces_nonempty(b: Seq<u8>)
    ensures
        split_pieces(b).len() >= 1,
    decreases b.len(),
{
    if b.len() > 0 {
        lemma_split_pieces_nonempty(b.drop_last());
    }
}

/// What follows a delimiter is split on its own.
pub proof fn lemma_split_after_delimiter(a: Seq<u8>, b: Seq<u8>)
    requires
        a.len() > 0,
        a.last() == DELIMITER,
    ensures
        split_pieces(a + b) == split_pieces(a).drop_last() + split_pieces(b),
    decreases b.len(),
{
    lemma_split_pieces_nonempty(b);
    if b.len() == 0 {
        assert(a + b =~= a);
        assert(split_pieces(a) =~= split_pieces(a.drop_last()).push(seq![]));
        assert(split_pieces(a).drop_last() + split_pieces(b) =~= split_pieces(a));
    } else {
        lemma_split_after_delimiter(a, b.drop_last());
        assert((a + b).drop_last() =~= a + b.drop_last());
        lemma_split_pieces_nonempty(b.drop_last());
        let p = split_pieces(a).drop_last();
        let q = split_pieces(b.drop_last());
        if b.last() == DELIMITER {
            assert((p + q).push(seq![]) =~= p + q.push(seq![]));
        } else {
            assert((p + q).drop_last().push((p + q).last().push(b.last())) =~= p + q.drop_last().push(
                q.last().push(b.last()),
            ));
        }
    }
}

/// A delimiter-free piece followed by one delimiter splits into that piece
/// and an empty remainder.
pub proof fn lemma_split_one_frame(f: Seq<u8>)
    requires
        is_frame_body(f),
    ensures
        split_pieces(f) == seq![f],
        split_pieces(f.push(DELIMITER)) == seq![f, Seq::<u8>::empty()],
    decreases f.len(),
{
    if f.len() > 0 {
        lemma_split_one_frame(f.drop_last());
        assert(f[f.len() - 1] != DELIMITER);
        assert(f.drop_last().push(f.last()) =~= f);
        assert(split_pieces(f) =~= seq![f]);
    } else {
        assert(f =~= Seq::<u8>::empty());
        assert(split_pieces(f) =~= seq![f]);
    }
    assert(f.push(DELIMITER).drop_last() =~= f);
    assert(split_pieces(f.push(DELIMITER)) =~= seq![f, Seq::<u8>::empty()]);
}

proof fn lemma_join_ends_with_delimiter(fs: Seq<Seq<u8>>)
    requires
        fs.len() > 0,
    ensures
        join_frames(fs).len() > 0,
        join_frames(fs).last() == DELIMITER,
{
    let j = join_frames(fs);
    assert(j == join_frames(fs.drop_last()) + fs.last().push(DELIMITER));
    assert(j[j.len() - 1] == fs.last().push(DELIMITER)[fs.last().len() as int]);
}

/// What follows a log of whole frames is split on its own, after those frames.
proof fn lemma_split_after_frames(fs: Seq<Seq<u8>>, rest: Seq<u8>)
    requires
        forall|i: int| 0 <= i < fs.len() ==> is_frame_body(#[trigger] fs[i]),
    ensures
        split_pieces(join_frames(fs) + rest) == fs + split_pieces(rest),
    decreases fs.len(),
{
    if fs.len() == 0 {
        assert(join_frames(fs) + rest =~= rest);
        assert(fs + split_pieces(rest) =~= split_pieces(rest));
    } else {
        let init = fs.drop_last();
        let last = fs.last();
        assert(is_frame_body(fs[fs.len() - 1]));
        let tail = last.push(DELIMITER) + rest;
        assert(join_frames(fs) + rest =~= join_frames(init) + tail);
        lemma_split_after_frames(init, tail);
        lemma_split_one_frame(last);
        lemma_split_after_delimiter(last.push(DELIMITER), rest);
        assert(split_pieces(tail) =~= seq![last] + split_pieces(rest));
        assert(init + (seq![last] + split_pieces(rest)) =~= fs + split_pieces(rest));
    }
}

/// A log written as whole frames splits back into exactly those frames,
/// followed by the empty piece after the final delimiter.
pub proof fn lemma_split_join(fs: Seq<Seq<u8>>)
    requires
        forall|i: int| 0 <= i < fs.len() ==> is_frame_body(#[trigger] fs[i]),
    ensures
        split_pieces(join_frames(fs)) == fs.push(Seq::<u8>::empty()),
{
    lemma_split_after_frames(fs, seq![]);
    assert(join_frames(fs) + Seq::<u8>::empty() =~= join_frames(fs));
    assert(fs + seq![Seq::<u8>::empty()] =~= fs.push(Seq::<u8>::empty()));
}

/// Whatever bytes replace one frame's body, the frames before it and after it
/// are split out unchanged: the damage stays within the pieces of that body.
pub proof fn lemma_resync(pre: Seq<Seq<u8>>, damaged: Seq<u8>, post: Seq<Seq<u8>>)
    requires
        forall|i: int| 0 <= i < pre.len() ==> is_frame_body(#[trigger] pre[i]),
        forall|i: int| 0 <= i < post.len() ==> is_frame_body(#[trigger] post[i]),
    ensures
        split_pieces(join_frames(pre) + damaged.push(DELIMITER) + join_frames(post)) == pre
            + split_pieces(damaged) + post.push(Seq::<u8>::empty()),
{
    let rest = damaged.push(DELIMITER) + join_frames(post);
    assert(join_frames(pre) + damaged.push(DELIMITER) + join_frames(post) =~= join_frames(pre)
        + rest);
    lemma_split_after_frames(pre, rest);
    assert(damaged.push(DELIMITER).last() == DELIMITER);
    lemma_split_after_delimiter(damaged.push(DELIMITER), join_frames(post));
    assert(damaged.push(DELIMITER).drop_last() =~= damaged);
    assert(split_pieces(damaged.push(DELIMITER)).drop_last() =~= split_pieces(damaged));
    lemma_split_join(post);
    assert(pre + (split_pieces(damaged) + post.push(Seq::<u8>::empty())) =~= pre + split_pieces(
        damaged,
    ) + post.push(Seq::<u8>::empty()));
}

/// Cuts a log into the pieces between delimiters.
pub fn split_frames(bytes: &Vec<u8>) -> (r: Vec<Vec<u8>>)
    ensures
        r@.len() == split_pieces(bytes@).len(),
        forall|k: int| 0 <= k < r@.len() ==> #[trigger] r@[k]@ == split_pieces(bytes@)[k],
{
    let mut done: Vec<Vec<u8>> = Vec::new();
    let mut current: Vec<u8> = Vec::new();
    let mut i: usize = 0;
    proof {
        assert(bytes@.take(0) =~= Seq::<u8>::empty());
    }
    while i < bytes.len()
        invariant
            i <= bytes@.len(),
            done@.len() + 1 == split_pieces(bytes@.take(i as int)).len(),
            forall|k: int| 0 <= k < done@.len() ==> #[trigger] done@[k]@ == split_pieces(
                bytes@.take(i as int),
            )[k],
            current@ == split_pieces(bytes@.take(i as int)).last(),
        decreases bytes.len() - i,
    {
        let ghost prev = bytes@.take(i as int);
        proof {
            assert(bytes@.take(i + 1).drop_last() =~= prev);
            lemma_split_pieces_nonempty(prev);
        }
        let b = bytes[i];
        if b == DELIMITER {
            let mut piece: Vec<u8> = Vec::new();
            std::mem::swap(&mut piece, &mut current);
            done.push(piece);
        } else {
            current.push(b);
        }
        i = i + 1;
        proof {
            let p = split_pieces(bytes@.take(i as int));
            assert forall|k: int| 0 <= k < done@.len() implies #[trigger] done@[k]@ == p[k] by {}
        }
    }
    proof {
        assert(bytes@.take(i as int) =~= bytes@);
    }
    done.push(current);
    done
}

} // verus!
