use vstd::prelude::*;

verus! {

/// The error payload answered for a request that the macro-expansion
/// service could not handle.
#[derive(Debug)]
pub struct ErrResponse {
    message: String,
}

impl ErrResponse {
    /// The carried message text.
    pub closed spec fn text(self) -> Seq<char> {
        self.message@
    }

    pub fn new(message: String) -> (r: Self)
        ensures
            r.text() == message@,
    {
        ErrResponse { message }
    }

    pub fn message(&self) -> (r: &String)
        ensures
            r@ == self.text(),
    {
        &self.message
    }
}

/// A macro plugin known to the host, and whether it is built in.
/// Built-in plugins are served directly and are not loaded again.
#[derive(Debug)]
pub struct PluginDescriptor {
    pub name: String,
    pub builtin: bool,
}

impl Clone for PluginDescriptor {
    fn clone(&self) -> (r: Self)
        ensures
            r == *self,
    {
        PluginDescriptor { name: self.name.clone(), builtin: self.builtin }
    }
}

/// The plugins the macro host must load for one compilation unit:
/// every named plugin that is not built in, in declaration order.
pub fn load_plugins(plugins: Vec<PluginDescriptor>) -> (r: Vec<PluginDescriptor>)
    ensures
        r@ == plugins@.filter(|p: PluginDescriptor| !p.builtin),
{
    let ghost pred = |p: PluginDescriptor| !p.builtin;
    let mut out: Vec<PluginDescriptor> = Vec::new();
    let mut i: usize = 0;
    while i < plugins.len()
        invariant
            i <= plugins@.len(),
            pred == (|p: PluginDescriptor| !p.builtin),
            out@ == plugins@.take(i as int).filter(pred),
        decreases plugins@.len() - i,
    {
        let p = &plugins[i];
        if !p.builtin {
            out.push(p.clone());
        }
        proof {
            reveal(Seq::filter);
            let s = plugins@;
            assert(s.take(i + 1).drop_last() =~= s.take(i as int));
            assert(s.take(i + 1).last() == s[i as int]);
            assert(s.take(i + 1).filter(pred) == if pred(s[i as int]) {
                s.take(i as int).filter(pred).push(s[i as int])
            } else {
                s.take(i as int).filter(pred)
            });
        }
        i += 1;
    }
    proof {
        assert(plugins@.take(plugins@.len() as int) =~= plugins@);
    }
    out
}

/// The names that a set of macro plugins defines, flattened from the
/// per-plugin name lists, in order.
pub fn defined(groups: Vec<Vec<String>>) -> (r: Vec<String>)
    ensures
        r@ == groups@.map_values(|g: Vec<String>| g@).flatten(),
{
    let ghost view_of = |g: Vec<String>| g@;
    let mut out: Vec<String> = Vec::new();
    let mut i: usize = 0;
    while i < groups.len()
        invariant
            i <= groups@.len(),
            view_of == (|g: Vec<String>| g@),
            out@ == groups@.map_values(view_of).take(i as int).flatten(),
        decreases groups@.len() - i,
    {
        let g = &groups[i];
        let mut k: usize = 0;
        while k < g.len()
            invariant
                i < groups@.len(),
                k <= g@.len(),
                g == &groups[i as int],
                view_of == (|g2: Vec<String>| g2@),
                out@ == groups@.map_values(view_of).take(i as int).flatten() + g@.take(k as int),
            decreases g@.len() - k,
        {
            out.push(g[k].clone());
            proof {
                assert(g@.take(k + 1) =~= g@.take(k as int).push(g@[k as int]));
                assert(out@ =~= groups@.map_values(view_of).take(i as int).flatten() + g@.take(
                    k + 1,
                ));
            }
            k += 1;
        }
        proof {
            let m = groups@.map_values(view_of);
            assert(g@.take(g@.len() as int) =~= g@);
            assert(m.take(i + 1) =~= m.take(i as int).push(m[i as int]));
            m.take(i as int).lemma_flatten_push(m[i as int]);
            assert(m[i as int] == g@);
            assert(out@ =~= m.take(i + 1).flatten());
        }
        i += 1;
    }
    proof {
        let m = groups@.map_values(view_of);
        assert(m.take(m.len() as int) =~= m);
    }
    out
}

} // verus!
