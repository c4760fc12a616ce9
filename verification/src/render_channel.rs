use vstd::prelude::*;

verus! {

/// A registered custom render channel: its name, the number of floats it
/// writes per entity, and the function that writes them.
pub struct ChannelRegistration<F> {
    pub name: String,
    pub stride: usize,
    pub extract_fn: F,
}

/// The custom per-entity render channels, each name registered once, in
/// registration order.
pub struct RenderChannelRegistry<F> {
    channels: Vec<ChannelRegistration<F>>,
}

/// The names of `channels`, in order.
pub open spec fn channel_names<F>(channels: Seq<ChannelRegistration<F>>) -> Seq<Seq<char>> {
    channels.map_values(|c: ChannelRegistration<F>| c.name@)
}

impl<F> RenderChannelRegistry<F> {
    /// The registered channels, in registration order.
    pub closed spec fn spec_channels(&self) -> Seq<ChannelRegistration<F>> {
        self.channels@
    }

    #[verifier::type_invariant]
    spec fn wf(self) -> bool {
        channel_names(self.channels@).no_duplicates()
    }

    /// An empty registry.
    pub fn new() -> (r: Self)
        ensures
            r.spec_channels().len() == 0,
    {
        let r = RenderChannelRegistry { channels: Vec::new() };
        proof {
            assert(channel_names(r.channels@) =~= Seq::<Seq<char>>::empty());
        }
        r
    }

    /// Whether a channel named `name` is registered.
    pub fn is_registered(&self, name: &str) -> (r: bool)
        ensures
            r == channel_names(self.spec_channels()).contains(name@),
    {
        let target = name.to_owned();
        let ghost ns = channel_names(self.channels@);
        let mut i: usize = 0;
        while i < self.channels.len()
            invariant
                i <= self.channels@.len(),
                target@ == name@,
                ns == channel_names(self.channels@),
                forall|j: int| 0 <= j < i ==> ns[j] != name@,
            decreases self.channels@.len() - i,
        {
            if self.channels[i].name == target {
                proof {
                    assert(ns[i as int] == name@);
                }
                return true;
            }
            i = i + 1;
        }
        false
    }

    /// Register a channel under a name not registered yet.
    pub fn register(&mut self, name: String, stride: usize, extract_fn: F)
        requires
            !channel_names(old(self).spec_channels()).contains(name@),
        ensures
            final(self).spec_channels() == old(self).spec_channels().push(
                ChannelRegistration { name, stride, extract_fn },
            ),
    {
        proof {
            use_type_invariant(&*self);
        }
        let ghost before = self.channels@;
        let mut channels: Vec<ChannelRegistration<F>> = Vec::new();
        std::mem::swap(&mut channels, &mut self.channels);
        channels.push(ChannelRegistration { name, stride, extract_fn });
        proof {
            let ns = channel_names(channels@);
            assert(ns =~= channel_names(before).push(channels@.last().name@));
            assert forall|a: int, b: int| 0 <= a < b < ns.len() implies ns[a] != ns[b] by {
                if b == ns.len() - 1 {
                    assert(channel_names(before)[a] == ns[a]);
                }
            }
        }
        std::mem::swap(&mut channels, &mut self.channels);
    }

    /// The registered channels, in registration order.
    pub fn channels(&self) -> (r: &[ChannelRegistration<F>])
        ensures
            r@ == self.spec_channels(),
    {
        self.channels.as_slice()
    }

    /// The number of registered channels.
    pub fn len(&self) -> (r: usize)
        ensures
            r == self.spec_channels().len(),
    {
        self.channels.len()
    }

    /// Whether no channel is registered.
    pub fn is_empty(&self) -> (r: bool)
        ensures
            r == (self.spec_channels().len() == 0),
    {
        self.channels.len() == 0
    }
}

} // verus!
