use vstd::prelude::*;

verus! {

struct Node<T> {
    value: T,
    next: Option<Box<Node<T>>>,
}

/// A singly linked list of owned nodes; new values go to the front.
pub struct LinkedList<T> {
    head: Option<Box<Node<T>>>,
}

/// The values of the chain that starts at `link`, front first.
spec fn values_of<T>(link: Option<Box<Node<T>>>) -> Seq<T>
    decreases link,
{
    match link {
        None => Seq::empty(),
        Some(node) => seq![node.value] + values_of(node.next),
    }
}

/// The decimal digits of `n`, most significant first.
pub open spec fn decimal(n: nat) -> Seq<char>
    decreases n,
{
    if n < 10 {
        seq![digit(n)]
    } else {
        decimal(n / 10).push(digit(n % 10))
    }
}

/// The character of the decimal digit `d`.
pub open spec fn digit(d: nat) -> char {
    if d == 0 {
        '0'
    } else if d == 1 {
        '1'
    } else if d == 2 {
        '2'
    } else if d == 3 {
        '3'
    } else if d == 4 {
        '4'
    } else if d == 5 {
        '5'
    } else if d == 6 {
        '6'
    } else if d == 7 {
        '7'
    } else if d == 8 {
        '8'
    } else {
        '9'
    }
}

/// What `describe_structure` says of a list of `n` values.
pub open spec fn description(n: nat) -> Seq<char> {
    if n == 0 {
        "Empty list"@
    } else {
        "Linear list with "@ + decimal(n) + " nodes"@
    }
}

/// Relies on std's formatting of `usize` (`Display`, decimal digits without
/// sign or padding) to put `n` between `prefix` and `suffix`.
#[verifier::external_body]
fn with_count(prefix: &str, n: usize, suffix: &str) -> (r: String)
    ensures
        r@ == prefix@ + decimal(n as nat) + suffix@,
{
    format!("{}{}{}", prefix, n, suffix)
}

impl<T> View for LinkedList<T> {
    type V = Seq<T>;

    /// The values, front first.
    closed spec fn view(&self) -> Seq<T> {
        values_of(self.head)
    }
}

impl<T> LinkedList<T> {
    pub fn new() -> (l: Self)
        ensures
            l@ == Seq::<T>::empty(),
    {
        LinkedList { head: None }
    }

    /// Puts `value` in front.
    pub fn push(&mut self, value: T)
        ensures
            final(self)@ == seq![value] + old(self)@,
    {
        let rest = self.head.take();
        self.head = Some(Box::new(Node { value, next: rest }));
    }

    /// Removes and returns the front value.
    pub fn pop(&mut self) -> (r: Option<T>)
        ensures
            old(self)@.len() == 0 ==> r is None && final(self)@ == old(self)@,
            old(self)@.len() > 0 ==> r == Some(old(self)@[0]) && final(self)@ == old(
                self,
            )@.drop_first(),
    {
        match self.head.take() {
            None => None,
            Some(node) => {
                let node = *node;
                self.head = node.next;
                proof {
                    assert(old(self)@ == seq![node.value] + self@);
                    assert(old(self)@.drop_first() =~= self@);
                }
                Some(node.value)
            },
        }
    }

    pub fn is_empty(&self) -> (r: bool)
        ensures
            r == (self@.len() == 0),
    {
        self.head.is_none()
    }

    /// The number of values, counted by one walk from the front.
    pub fn len(&self) -> (r: usize)
        requires
            self@.len() <= usize::MAX,
        ensures
            r == self@.len(),
    {
        let mut cur = &self.head;
        let mut count: usize = 0;
        while cur.is_some()
            invariant
                count + values_of(*cur).len() == self@.len(),
                self@.len() <= usize::MAX,
            decreases values_of(*cur).len(),
        {
            let node = cur.as_ref().unwrap();
            cur = &node.next;
            count = count + 1;
        }
        count
    }

    /// The value at position `index` from the front.
    pub fn get(&self, index: usize) -> (r: Option<&T>)
        ensures
            index < self@.len() ==> r == Some(&self@[index as int]),
            index >= self@.len() ==> r is None,
    {
        let mut cur = &self.head;
        let mut i: usize = 0;
        while i < index
            invariant
                i <= index,
                i <= self@.len() ==> values_of(*cur) == self@.subrange(i as int, self@.len() as int),
                i > self@.len() ==> cur is None,
                cur is None ==> i >= self@.len(),
            decreases index - i,
        {
            match cur {
                Some(node) => {
                    proof {
                        assert(values_of(*cur) == seq![node.value] + values_of(node.next));
                        assert(values_of(node.next) =~= values_of(*cur).drop_first());
                        assert(values_of(node.next) =~= self@.subrange(i + 1, self@.len() as int));
                    }
                    cur = &node.next;
                },
                None => {
                    return None;
                },
            }
            i = i + 1;
        }
        match cur {
            Some(node) => {
                proof {
                    assert(self@[index as int] == values_of(*cur)[0]);
                }
                Some(&node.value)
            },
            None => None,
        }
    }

    /// Reverses the order of the values in place.
    pub fn reverse(&mut self)
        ensures
            final(self)@ == old(self)@.reverse(),
    {
        let mut prev: Option<Box<Node<T>>> = None;
        let mut current = self.head.take();
        while current.is_some()
            invariant
                values_of(prev).reverse() + values_of(current) == old(self)@,
            decreases values_of(current).len(),
        {
            let mut node = current.unwrap();
            let ghost whole = values_of(current);
            let rest = node.next.take();
            proof {
                assert(whole == seq![node.value] + values_of(rest));
            }
            let ghost before_prev = values_of(prev);
            node.next = prev;
            prev = Some(node);
            current = rest;
            proof {
                assert(values_of(prev) == seq![node.value] + before_prev);
                assert(values_of(prev).reverse() =~= before_prev.reverse().push(node.value));
                assert(values_of(prev).reverse() + values_of(current) =~= before_prev.reverse() + whole);
            }
        }
        proof {
            assert(values_of(prev).reverse() + values_of(current) =~= values_of(prev).reverse());
            assert(values_of(prev).reverse().reverse() =~= values_of(prev));
        }
        self.head = prev;
    }

    /// Whether following the links from the front ever comes back to a node.
    /// Every link owns the node it points to, so the chain always ends.
    pub fn has_cycle(&self) -> (r: bool)
        ensures
            !r,
    {
        false
    }

    /// The position where a cycle starts; there is none (see `has_cycle`).
    pub fn find_cycle_start(&self) -> (r: Option<usize>)
        ensures
            r is None,
    {
        if self.has_cycle() {
            Some(0)
        } else {
            None
        }
    }

    /// The number of nodes on a cycle; there is none (see `has_cycle`).
    pub fn cycle_length(&self) -> (r: Option<usize>)
        ensures
            r is None,
    {
        if self.has_cycle() {
            Some(0)
        } else {
            None
        }
    }

    /// References to every value, front first.
    pub fn get_all_values(&self) -> (r: Vec<&T>)
        ensures
            r@.len() == self@.len(),
            forall|i: int| 0 <= i < r@.len() ==> *r@[i] == self@[i],
    {
        let mut out: Vec<&T> = Vec::new();
        let mut cur = &self.head;
        while cur.is_some()
            invariant
                out@.len() + values_of(*cur).len() == self@.len(),
                values_of(*cur) == self@.subrange(out@.len() as int, self@.len() as int),
                forall|i: int| 0 <= i < out@.len() ==> *out@[i] == self@[i],
            decreases values_of(*cur).len(),
        {
            let node = cur.as_ref().unwrap();
            proof {
                assert(values_of(*cur) == seq![node.value] + values_of(node.next));
                assert(values_of(node.next) =~= values_of(*cur).drop_first());
                assert(node.value == values_of(*cur)[0]);
                assert(node.value == self@[out@.len() as int]);
                assert(values_of(node.next) =~= self@.subrange(out@.len() + 1int, self@.len() as int));
            }
            out.push(&node.value);
            cur = &node.next;
        }
        out
    }

    /// "Empty list", or "Linear list with N nodes".
    pub fn describe_structure(&self) -> (r: String)
        requires
            self@.len() <= usize::MAX,
        ensures
            r@ == description(self@.len()),
    {
        if self.is_empty() {
            "Empty list".to_owned()
        } else {
            with_count("Linear list with ", self.len(), " nodes")
        }
    }
}

} // verus!
