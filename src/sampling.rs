use vstd::prelude::*;

verus! {

/// `draws` is a possible run of rejected draws: each one a value that
/// `draw` may return and that `accept` turned down.
pub open spec fn all_rejected<T, FD: Fn() -> T, FA: Fn(&T) -> bool>(
    draw: FD,
    accept: FA,
    draws: Seq<T>,
) -> bool {
    forall|i: int|
        0 <= i < draws.len() ==> draw.ensures((), #[trigger] draws[i]) && accept.ensures(
            (&draws[i],),
            false,
        )
}

/// Rejection sampling with a bounded number of attempts: draws until
/// `accept` takes a sample or `attempts` draws have been made. Returns the
/// sample and whether it was accepted; when none was, the last draw, or
/// `fallback` when no draw was made.
pub fn rejection_sample<T, FD, FA>(fallback: T, draw: &FD, accept: &FA, attempts: u32) -> (r: (T, bool)) where
    FD: Fn() -> T,
    FA: Fn(&T) -> bool,

    requires
        draw.requires(()),
        forall|t: &T| #[trigger] accept.requires((t,)),
    ensures
        r.1 ==> exists|before: Seq<T>|
            before.len() < attempts && #[trigger] all_rejected(*draw, *accept, before) && draw.ensures(
                (),
                r.0,
            ) && accept.ensures((&r.0,), true),
        !r.1 && attempts == 0 ==> r.0 == fallback,
        !r.1 && attempts > 0 ==> exists|draws: Seq<T>|
            draws.len() == attempts && #[trigger] all_rejected(*draw, *accept, draws) && draws.last()
                == r.0,
{
    let mut sample = fallback;
    let mut tries: u32 = 0;
    let ghost mut draws: Seq<T> = Seq::empty();
    while tries < attempts
        invariant
            draw.requires(()),
            forall|t: &T| #[trigger] accept.requires((t,)),
            tries <= attempts,
            draws.len() == tries,
            all_rejected(*draw, *accept, draws),
            tries == 0 ==> sample == fallback,
            tries > 0 ==> draws.last() == sample,
        decreases attempts - tries,
    {
        sample = draw();
        if accept(&sample) {
            return (sample, true);
        }
        proof {
            draws = draws.push(sample);
        }
        tries += 1;
    }
    (sample, false)
}

} // verus!
