//! A node that mixes its inputs.

use crate::buffer::{clip, mixed, silent, steady, Buffer};
use crate::node::{samples, views, Input, InputView, Node};
use vstd::prelude::*;

verus! {

/// A stateless node that sums each of its inputs onto its output.
///
/// Channel `c` of the output is the clipped sum of channel `c` of every
/// input that has one, taken in the order of the inputs. An output channel
/// that no input reaches is silent.
#[derive(Clone, Copy, Debug, PartialEq, Eq)]
pub struct Sum;

/// Channel `c` with one more input mixed in, where the input has that
/// channel.
pub open spec fn mix_in<I>(c: int) -> spec_fn(Seq<i32>, InputView<I>) -> Seq<i32> {
    |acc: Seq<i32>, input: InputView<I>|
        if c < input.buffers.len() {
            mixed(acc, input.buffers[c])
        } else {
            acc
        }
}

/// Channel `c` of the mix of `inputs`: silence, with each input mixed in,
/// first to last.
pub open spec fn mix_channel<I>(inputs: Seq<InputView<I>>, c: int) -> Seq<i32> {
    inputs.fold_left(silent(), mix_in(c))
}

/// The mix of `inputs` over `channels` channels.
pub open spec fn mix_of<I>(inputs: Seq<InputView<I>>, channels: nat) -> Seq<Seq<i32>> {
    Seq::new(channels, |c: int| mix_channel(inputs, c))
}

impl<I> Node<I> for Sum {
    open spec fn emits(
        &self,
        inputs: Seq<InputView<I>>,
        before: Seq<Seq<i32>>,
        after: Seq<Seq<i32>>,
    ) -> bool {
        after == mix_of(inputs, before.len())
    }

    fn process(&mut self, inputs: &[Input<'_, I>], output: &mut [Buffer]) {
        let channels = output.len();
        let mut c: usize = 0;
        while c < channels
            invariant
                c <= channels,
                output@.len() == channels,
                channels == old(output)@.len(),
                forall|d: int|
                    0 <= d < c ==> (#[trigger] output@[d])@ == mix_channel(views(inputs@), d),
            decreases channels - c,
        {
            output[c].silence();
            let mut k: usize = 0;
            while k < inputs.len()
                invariant
                    k <= inputs.len(),
                    c < channels,
                    output@.len() == channels,
                    channels == old(output)@.len(),
                    forall|d: int|
                        0 <= d < c ==> (#[trigger] output@[d])@ == mix_channel(views(inputs@), d),
                    output@[c as int]@ == mix_channel(views(inputs@).take(k as int), c as int),
                decreases inputs.len() - k,
            {
                let heard = inputs[k].buffers();
                proof {
                    let all = views(inputs@);
                    assert(all.take(k + 1).drop_last() =~= all.take(k as int));
                }
                if c < heard.len() {
                    output[c].add_in_place(&heard[c]);
                }
                k += 1;
            }
            c += 1;
        }
        assert(samples(output@) =~= mix_of(views(inputs@), old(output)@.len()));
    }
}

/// Two inputs that both hold the sample `v` throughout channel `c` mix to
/// twice `v` throughout, clipped to the range of a sample.
pub proof fn lemma_sum_of_two<I>(a: InputView<I>, b: InputView<I>, v: i32, c: int)
    requires
        0 <= c < a.buffers.len(),
        c < b.buffers.len(),
        a.buffers[c] == steady(v),
        b.buffers[c] == steady(v),
    ensures
        mix_channel(seq![a, b], c) == steady(clip(2 * v)),
{
    reveal_with_fuel(Seq::fold_left, 3);
}

} // verus!
