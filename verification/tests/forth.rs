use edy::forth::{Host, Value, Vm};

struct FakeHost {
    text: String,
    cursor: usize,
    mark: Option<usize>,
    msg: String,
}

impl FakeHost {
    fn new(text: &str) -> FakeHost {
        FakeHost { text: text.into(), cursor: 0, mark: None, msg: String::new() }
    }

    fn at(&self, n: i64) -> usize {
        let mut i = n.clamp(0, self.text.len() as i64) as usize;
        while !self.text.is_char_boundary(i) {
            i -= 1;
        }
        i
    }

    fn range(&self, a: i64, b: i64) -> (usize, usize) {
        let (a, b) = (self.at(a), self.at(b));
        (a.min(b), a.max(b))
    }
}

impl Host for FakeHost {
    fn len(&self) -> i64 {
        self.text.len() as i64
    }

    fn cursor(&self) -> i64 {
        self.cursor as i64
    }

    fn set_cursor(&mut self, at: i64) {
        self.cursor = self.at(at);
    }

    fn mark(&self) -> i64 {
        self.mark.map_or(-1, |m| m as i64)
    }

    fn set_mark(&mut self, at: i64) {
        self.mark = if at < 0 { None } else { Some(self.at(at)) };
    }

    fn selection(&self) -> (i64, i64) {
        match self.mark {
            Some(m) => (m.min(self.cursor) as i64, m.max(self.cursor) as i64),
            None => (self.cursor as i64, self.cursor as i64),
        }
    }

    fn slice(&self, a: i64, b: i64) -> String {
        let (a, b) = self.range(a, b);
        self.text[a..b].into()
    }

    fn insert(&mut self, s: &str) {
        self.text.insert_str(self.cursor, s);
        self.cursor += s.len();
    }

    fn delete(&mut self, a: i64, b: i64) {
        let (a, b) = self.range(a, b);
        self.text.replace_range(a..b, "");
        self.cursor = self.at(self.cursor.min(self.text.len()) as i64);
    }

    fn line(&self) -> i64 {
        self.text[..self.cursor].matches('\n').count() as i64
    }

    fn lines(&self) -> i64 {
        self.text.matches('\n').count() as i64 + 1
    }

    fn line_start(&self, l: i64) -> i64 {
        let mut off = 0;
        for _ in 0..l.max(0) {
            match self.text[off..].find('\n') {
                Some(i) => off += i + 1,
                None => return self.text.len() as i64,
            }
        }
        off as i64
    }

    fn line_end(&self, l: i64) -> i64 {
        let s = self.line_start(l) as usize;
        self.text[s..].find('\n').map_or(self.text.len(), |i| s + i) as i64
    }

    fn search(&self, s: &str, fwd: bool) -> i64 {
        if fwd {
            self.text[self.cursor..].find(s).map_or(-1, |i| (self.cursor + i) as i64)
        } else {
            self.text[..self.cursor].rfind(s).map_or(-1, |i| i as i64)
        }
    }

    fn message(&mut self, s: &str) {
        self.msg = s.into();
    }
}

fn run(vm: &mut Vm, src: &str) -> Result<FakeHost, String> {
    let mut h = FakeHost::new("");
    vm.run(src, &mut h)?;
    Ok(h)
}

fn ints(vm: &Vm) -> Vec<i64> {
    vm.stack()
        .iter()
        .map(|v| match v {
            Value::Int(n) => *n,
            Value::Str(_) => panic!("string on stack"),
        })
        .collect()
}

#[test]
fn locals() {
    let mut vm = Vm::new();
    run(&mut vm, ": abc >x >y 5 x + y * ; 3 4 abc").unwrap();
    assert_eq!(ints(&vm), vec![27]);
}

#[test]
fn locals_at_top_level() {
    let mut vm = Vm::new();
    run(&mut vm, "10 >a a a +").unwrap();
    assert_eq!(ints(&vm), vec![20]);
}

#[test]
fn if_else_then() {
    let mut vm = Vm::new();
    run(&mut vm, ": sign 0 < if -1 else 1 then ; 5 sign -3 sign").unwrap();
    assert_eq!(ints(&vm), vec![1, -1]);
}

#[test]
fn begin_until() {
    let mut vm = Vm::new();
    run(&mut vm, ": count >n 0 begin 1 + dup n = until ; 5 count").unwrap();
    assert_eq!(ints(&vm), vec![5]);
}

#[test]
fn begin_while_repeat() {
    let mut vm = Vm::new();
    run(&mut vm, ": w >n 0 begin dup n < while 1 + repeat ; 3 w").unwrap();
    assert_eq!(ints(&vm), vec![3]);
}

#[test]
fn strings() {
    let mut vm = Vm::new();
    run(&mut vm, "\"ab\" \"cd\" s+ slen").unwrap();
    assert_eq!(ints(&vm), vec![4]);
}

#[test]
fn shadowing() {
    let mut vm = Vm::new();
    run(&mut vm, ": f 1 ; : f 2 ; f").unwrap();
    assert_eq!(ints(&vm), vec![2]);
}

#[test]
fn step_budget() {
    let mut vm = Vm::new();
    let e = run(&mut vm, ": spin begin 0 until ; spin").err().unwrap();
    assert!(e.contains("budget"));
}

#[test]
fn errors_restore_stack() {
    let mut vm = Vm::new();
    run(&mut vm, "1 2").unwrap();
    assert!(run(&mut vm, "3 nosuch").is_err());
    assert_eq!(ints(&vm), vec![1, 2]);
    assert!(run(&mut vm, "drop drop drop").is_err());
    assert_eq!(ints(&vm), vec![1, 2]);
}

#[test]
fn compile_errors() {
    let mut vm = Vm::new();
    assert!(run(&mut vm, ": f if 1 ;").is_err());
    assert!(run(&mut vm, "else").is_err());
    assert!(run(&mut vm, ": f 1").is_err());
    assert!(run(&mut vm, "\"open").is_err());
}

#[test]
fn defs_only_load() {
    let mut vm = Vm::new();
    vm.load(": a 1 ; \\ comment\n: b a a + ;").unwrap();
    assert!(vm.load("1 2 +").is_err());
    let mut h = FakeHost::new("");
    vm.run("b", &mut h).unwrap();
    assert_eq!(ints(&vm), vec![2]);
}

#[test]
fn editor_words() {
    let mut vm = Vm::new();
    let mut h = FakeHost::new("hello\nworld");
    vm.run("len", &mut h).unwrap();
    assert_eq!(ints(&vm), vec![11]);
    vm.run("drop 0 eol cursor! \" there\" insert", &mut h).unwrap();
    assert_eq!(h.text, "hello there\nworld");
    vm.run("\"world\" find", &mut h).unwrap();
    assert_eq!(ints(&vm), vec![12]);
    vm.run("drop 0 5 del", &mut h).unwrap();
    assert_eq!(h.text, " there\nworld");
    vm.run("\"done\" msg", &mut h).unwrap();
    assert_eq!(h.msg, "done");
}

#[test]
fn dot_and_conversions() {
    let mut vm = Vm::new();
    let mut h = FakeHost::new("");
    vm.run("6 7 * .", &mut h).unwrap();
    assert_eq!(h.msg, "42");
    vm.run("\"12\" >int 1 + >str", &mut h).unwrap();
    assert_eq!(*vm.stack(), vec![Value::Str("13".into())]);
}

#[test]
fn definitions_append_names_in_order() {
    let mut vm = Vm::new();
    vm.load(": a 1 ; : b a ; : a 2 ;").unwrap();
    assert_eq!(vm.names(), vec!["a".to_string(), "b".to_string(), "a".to_string()]);
    let mut h = FakeHost::new("");
    vm.run("1 : c 3 ; 2", &mut h).unwrap();
    assert_eq!(vm.names(), vec!["a".to_string(), "b".to_string(), "a".to_string(), "c".to_string()]);
    assert_eq!(ints(&vm), vec![1, 2]);
}

#[test]
fn load_succeeds_exactly_on_compiling_definitions() {
    let mut vm = Vm::new();
    assert!(vm.load(": a 1 ; : b a a + ;").is_ok());
    assert!(vm.load(": c b ; 1").is_err());
    assert!(vm.load(": d if 1 ;").is_err());
    assert!(vm.load(": ; 1 ;").is_err());
    assert!(vm.load(": e nosuch ;").is_err());
    assert!(vm.load(": f e ;").is_err());
    assert!(vm.load("").is_ok());
    assert!(vm.stack().is_empty());
}

#[test]
fn newest_definition_and_locals_come_first() {
    let mut vm = Vm::new();
    let mut h = FakeHost::new("");
    vm.run(": w 1 ; : w 2 ; w", &mut h).unwrap();
    assert_eq!(ints(&vm), vec![2]);
    vm.run("drop 5 >w w w +", &mut h).unwrap();
    assert_eq!(ints(&vm), vec![10]);
}
