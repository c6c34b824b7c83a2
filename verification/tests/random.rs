use ob::model::Msg;
use ob::ob::{Instruction, Match, Operation, OrderBook};
use ob::order::{BasicOrder, OrderInterface};
use ob::side::Side;
use std::collections::HashMap;

/// A small deterministic generator of pseudo-random numbers.
struct Lcg(u64);

impl Lcg {
    fn next(&mut self) -> u64 {
        self.0 = self
            .0
            .wrapping_mul(6364136223846793005)
            .wrapping_add(1442695040888963407);
        self.0 >> 33
    }

    fn below(&mut self, n: u64) -> u64 {
        self.next() % n
    }
}

/// A resting order of the plain book: (id, is_buy, price, quantity, remaining).
type Plain = (String, bool, u64, u64, u64);

/// A book that keeps its orders in two plain vectors and follows the rules of
/// matching step by step.
#[derive(Default)]
struct PlainBook {
    bids: Vec<Plain>,
    asks: Vec<Plain>,
    shadow: HashMap<String, u64>,
}

#[derive(Debug, PartialEq, Eq, Clone)]
enum PlainInstruction {
    Insert(Plain, u64),
    Fill(String, u64),
    Delete(String),
    NoOp(Msg),
}

impl PlainBook {
    fn rests(&self, id: &str) -> bool {
        self.bids.iter().chain(self.asks.iter()).any(|o| o.0 == id)
    }

    fn eval_insert(&mut self, o: Plain) -> (Option<(String, u64, Vec<(String, u64)>)>, Vec<PlainInstruction>) {
        if self.rests(&o.0) || self.shadow.contains_key(&o.0) {
            return (None, vec![PlainInstruction::NoOp(Msg::OrderAlreadyExists)]);
        }
        let mut remaining = o.4;
        let mut taken = 0;
        let mut makers = Vec::new();
        let mut instructions = Vec::new();
        let opposite = if o.1 { &self.asks } else { &self.bids };
        for resting in opposite.iter() {
            let passes = if o.1 { o.2 >= resting.2 } else { o.2 <= resting.2 };
            if !passes {
                break;
            }
            let available = match self.shadow.get(&resting.0) {
                Some(q) => *q,
                None => resting.4,
            };
            if available == 0 {
                continue;
            }
            let take = remaining.min(available);
            remaining -= take;
            taken += take;
            instructions.push(PlainInstruction::Fill(resting.0.clone(), take));
            makers.push((resting.0.clone(), take));
            self.shadow.insert(resting.0.clone(), available - take);
            if remaining == 0 {
                break;
            }
        }
        let matched = if taken > 0 {
            Some((o.0.clone(), taken, makers))
        } else {
            None
        };
        if remaining > 0 {
            self.shadow.insert(o.0.clone(), remaining);
            instructions.insert(0, PlainInstruction::Insert(o, remaining));
        }
        (matched, instructions)
    }

    fn eval_cancel(&mut self, id: &str) -> PlainInstruction {
        if self.rests(id) {
            self.shadow.insert(id.to_string(), 0);
            PlainInstruction::Delete(id.to_string())
        } else {
            PlainInstruction::NoOp(Msg::OrderNotFound)
        }
    }

    fn apply(&mut self, instructions: Vec<PlainInstruction>) {
        for instruction in instructions {
            match instruction {
                PlainInstruction::Insert(mut o, remaining) => {
                    if self.rests(&o.0) || remaining == 0 || remaining > o.4 || remaining > o.3 {
                        continue;
                    }
                    o.4 = remaining;
                    let side = if o.1 { &mut self.bids } else { &mut self.asks };
                    let total: u128 = side.iter().map(|x| x.4 as u128).sum();
                    if total + remaining as u128 > u64::MAX as u128 {
                        continue;
                    }
                    let place = side
                        .iter()
                        .position(|x| if o.1 { x.2 < o.2 } else { x.2 > o.2 })
                        .unwrap_or(side.len());
                    side.insert(place, o);
                }
                PlainInstruction::Fill(id, quantity) => {
                    for side in [&mut self.bids, &mut self.asks] {
                        if let Some(k) = side.iter().position(|x| x.0 == id) {
                            if quantity <= side[k].4 {
                                side[k].4 -= quantity;
                                if side[k].4 == 0 {
                                    side.remove(k);
                                }
                            }
                        }
                    }
                }
                PlainInstruction::Delete(id) => {
                    self.bids.retain(|x| x.0 != id);
                    self.asks.retain(|x| x.0 != id);
                }
                PlainInstruction::NoOp(_) => {}
            }
        }
        self.shadow.clear();
    }
}

fn plain_of(instruction: &Instruction<BasicOrder>) -> PlainInstruction {
    match instruction {
        Instruction::Insert(o, r) => PlainInstruction::Insert(
            (o.id().clone(), o.is_buy(), o.price(), o.quantity(), o.remaining()),
            *r,
        ),
        Instruction::Fill(id, q) => PlainInstruction::Fill(id.clone(), *q),
        Instruction::Delete(id) => PlainInstruction::Delete(id.clone()),
        Instruction::NoOp(m) => PlainInstruction::NoOp(*m),
    }
}

fn plain_match(m: &Option<Match>) -> Option<(String, u64, Vec<(String, u64)>)> {
    m.as_ref()
        .map(|m| (m.taker.0.clone(), m.taker.1, m.makers.clone()))
}

fn resting(side: &Side<BasicOrder>) -> Vec<Plain> {
    let mut out = Vec::new();
    let mut it = side.iter();
    while let Some(o) = it.next() {
        out.push((o.id().clone(), o.is_buy(), o.price(), o.quantity(), o.remaining()));
    }
    out
}

fn check_same(book: &OrderBook<BasicOrder>, plain: &PlainBook, ids: u64) {
    assert_eq!(resting(book.bids()), plain.bids);
    assert_eq!(resting(book.asks()), plain.asks);
    for i in 0..ids {
        let id = format!("o{}", i);
        assert_eq!(book.shadow(&id), plain.shadow.get(&id).copied());
        assert_eq!(book.contains(&id), plain.rests(&id));
    }
    assert_eq!(book.shadow_is_empty(), plain.shadow.is_empty());
    let total = |v: &Vec<Plain>| v.iter().map(|x| x.4).sum::<u64>();
    assert_eq!(book.bids().total_quantity(), total(&plain.bids));
    assert_eq!(book.asks().total_quantity(), total(&plain.asks));
    for (side, orders) in [(book.bids(), &plain.bids), (book.asks(), &plain.asks)] {
        let mut prices: Vec<u64> = orders.iter().map(|x| x.2).collect();
        prices.dedup();
        assert_eq!(side.height(), prices.len());
        for (i, p) in prices.iter().enumerate() {
            assert_eq!(side.level_price(i), *p);
            let at: Vec<&Plain> = orders.iter().filter(|x| x.2 == *p).collect();
            assert_eq!(side.level_order_count(i), at.len());
            assert_eq!(side.level_quantity(i), at.iter().map(|x| x.4).sum::<u64>());
        }
    }
}

fn run(seed: u64, rounds: usize, spread: u64) {
    let mut rng = Lcg(seed);
    let mut book = OrderBook::<BasicOrder>::new();
    let mut plain = PlainBook::default();
    let mut next_id = 0u64;
    for _ in 0..rounds {
        let batch = 1 + rng.below(5);
        let mut pending: Vec<Instruction<BasicOrder>> = Vec::new();
        let mut plain_pending: Vec<PlainInstruction> = Vec::new();
        for _ in 0..batch {
            let kind = rng.below(10);
            if kind < 7 {
                // Now and then an identifier that was used before.
                let id = if rng.below(8) == 0 && next_id > 0 {
                    rng.below(next_id)
                } else {
                    next_id += 1;
                    next_id - 1
                };
                let is_buy = rng.below(2) == 0;
                let price = 1000 + rng.below(spread);
                let quantity = 1 + rng.below(50);
                let name = format!("o{}", id);
                let o = BasicOrder::new(&name, is_buy, price, quantity);
                let (m, ins) = book.eval_insert(o);
                let (pm, pins) = plain.eval_insert((name, is_buy, price, quantity, quantity));
                assert_eq!(plain_match(&m), pm);
                assert_eq!(ins.iter().map(plain_of).collect::<Vec<_>>(), pins);
                if let Some(m) = &m {
                    assert_eq!(m.taker.1, m.makers.iter().map(|x| x.1).sum::<u64>());
                }
                pending.extend(ins);
                plain_pending.extend(pins);
            } else {
                let id = format!("o{}", rng.below(next_id + 1));
                let ins = book.eval_cancel(&id);
                let pins = plain.eval_cancel(&id);
                assert_eq!(plain_of(&ins), pins);
                pending.push(ins);
                plain_pending.push(pins);
            }
            check_same(&book, &plain, next_id + 1);
        }
        // Now and then a batch is dropped, and only the shadow is cleared.
        if rng.below(10) == 0 {
            book.apply(Vec::new());
            plain.apply(Vec::new());
        } else {
            book.apply(pending);
            plain.apply(plain_pending);
        }
        check_same(&book, &plain, next_id + 1);
        assert!(book.shadow_is_empty());
    }
}

#[test]
fn random_batches_on_a_narrow_market() {
    run(1, 400, 4);
}

#[test]
fn random_batches_on_a_wide_market() {
    run(2, 400, 40);
}

#[test]
fn random_batches_as_one_eval_call() {
    let mut rng = Lcg(3);
    let mut book = OrderBook::<BasicOrder>::new();
    let mut plain = PlainBook::default();
    let mut next_id = 0u64;
    for _ in 0..200 {
        let mut ops = Vec::new();
        let mut plain_instructions = Vec::new();
        let mut plain_matches = Vec::new();
        for _ in 0..(1 + rng.below(6)) {
            if rng.below(4) > 0 {
                let name = format!("o{}", next_id);
                next_id += 1;
                let is_buy = rng.below(2) == 0;
                let price = 1000 + rng.below(6);
                let quantity = 1 + rng.below(30);
                ops.push(Operation::Insert(BasicOrder::new(&name, is_buy, price, quantity)));
                let (m, ins) = plain.eval_insert((name, is_buy, price, quantity, quantity));
                plain_matches.extend(m);
                plain_instructions.extend(ins);
            } else {
                let name = format!("o{}", rng.below(next_id + 1));
                ops.push(Operation::Cancel(name.clone()));
                plain_instructions.push(plain.eval_cancel(&name));
            }
        }
        let (matches, ins) = book.eval(ops);
        assert_eq!(ins.iter().map(plain_of).collect::<Vec<_>>(), plain_instructions);
        let seen: Vec<_> = matches
            .into_iter()
            .map(|m| (m.taker.0, m.taker.1, m.makers))
            .collect();
        assert_eq!(seen, plain_matches);
        check_same(&book, &plain, next_id + 1);
        book.apply(ins);
        plain.apply(plain_instructions);
        check_same(&book, &plain, next_id + 1);
    }
}
