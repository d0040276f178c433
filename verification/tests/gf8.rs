use parry::field::Field;
use parry::gf8::Gf8;

#[test]
fn add_commutative() {
    for x in Gf8::elements() {
        for y in Gf8::elements() {
            assert!(x + y == y + x);
        }
    }
}

#[test]
fn add_associative() {
    for x in Gf8::elements() {
        for y in Gf8::elements() {
            for z in Gf8::elements() {
                assert!((x + y) + z == x + (y + z));
            }
        }
    }
}

#[test]
fn add_assign() {
    for x in Gf8::elements() {
        for y in Gf8::elements() {
            let mut x_mut = x;
            x_mut += y;
            assert!(x_mut == x + y);
        }
    }
}

#[test]
fn add_equivalent_to_sub() {
    for x in Gf8::elements() {
        for y in Gf8::elements() {
            assert!(x + y == x - y);
        }
    }
}

fn russian_peasant_mul(x: Gf8, y: Gf8) -> Gf8 {
    let mut x0: usize = x.0 as usize;
    let mut y0: usize = y.0 as usize;
    let mut z: usize = 0;

    while x0 > 0 && y0 > 0 {
        if (y0 & 1) == 1 {
            z ^= x0;
        }

        if (x0 & 0x80) != 0 {
            x0 = (x0 << 1) ^ 0x11b;
        } else {
            x0 <<= 1;
        }

        y0 >>= 1;
    }

    Gf8(z as u8)
}

#[test]
fn exp_log() {
    let g: Gf8 = Gf8(0b11);
    let mut g_exp: Gf8 = Gf8(0b1);

    for i in 0..255 {
        assert!(Gf8(Gf8::EXP[i]) == g_exp);
        assert!(Gf8::LOG[g_exp.0 as usize] == i as u8);

        g_exp = russian_peasant_mul(g_exp, g);
    }
}

#[test]
fn mul() {
    for x in Gf8::elements() {
        for y in Gf8::elements() {
            assert!(x * y == russian_peasant_mul(x, y));
        }
    }
}

#[test]
fn mul_zero() {
    for x in Gf8::elements() {
        assert!(x * Gf8::zero() == Gf8::zero());
        assert!(Gf8::zero() * x == Gf8::zero());
    }
}

#[test]
fn mul_one() {
    for x in Gf8::elements() {
        assert!(x * Gf8::one() == x);
        assert!(Gf8::one() * x == x);
    }
}

#[test]
fn mul_commutative() {
    for x in Gf8::elements() {
        for y in Gf8::elements() {
            assert!(x * y == y * x);
        }
    }
}

#[test]
fn mul_associative() {
    for x in Gf8::elements() {
        for y in Gf8::elements() {
            for z in Gf8::elements() {
                assert!((x * y) * z == x * (y * z));
            }
        }
    }
}

#[test]
fn mul_distributive() {
    for x in Gf8::elements() {
        for y in Gf8::elements() {
            for z in Gf8::elements() {
                assert!(x * (y + z) == x * y + x * z);
            }
        }
    }
}

#[test]
fn div_undoes_mul() {
    for x in Gf8::elements() {
        for y in Gf8::elements() {
            if y == Gf8::zero() {
                continue;
            }

            assert!(x * y / y == x);
        }
    }
}

#[test]
fn div_associative_with_mul() {
    for x in Gf8::elements() {
        for y in Gf8::elements() {
            for z in Gf8::elements() {
                if z == Gf8::zero() {
                    continue;
                }

                assert!((x * y) / z == x * (y / z));
            }
        }
    }
}

#[test]
fn elements_are_the_bytes_in_order() {
    let elements = Gf8::elements();
    assert_eq!(elements.len(), 256);
    for (byte, element) in elements.iter().enumerate() {
        assert_eq!(element.0 as usize, byte);
    }
}

#[test]
fn checked_div_reports_division_by_zero() {
    for x in Gf8::elements() {
        assert_eq!(x.checked_div(Gf8::zero()), None);
        for y in Gf8::elements() {
            if y != Gf8::zero() {
                assert_eq!(x.checked_div(y), Some(x / y));
            }
        }
    }
}

#[test]
fn zero_divided_is_zero() {
    for y in Gf8::elements() {
        if y != Gf8::zero() {
            assert!(Gf8::zero() / y == Gf8::zero());
        }
    }
}

#[test]
fn known_products_and_quotients() {
    // 0x53 and 0xca are inverses of each other under the polynomial 0x11b
    assert_eq!(Gf8(0x53) * Gf8(0xca), Gf8(0x01));
    assert_eq!(Gf8(0x57) * Gf8(0x83), Gf8(0xc1));
    assert_eq!(Gf8(0x01) / Gf8(0x53), Gf8(0xca));
    assert_eq!(Gf8(0xc1) / Gf8(0x83), Gf8(0x57));
    assert_eq!(Gf8(0x02) * Gf8(0x80), Gf8(0x1b));
}

#[test]
fn trait_methods_agree_with_the_operators() {
    for x in Gf8::elements() {
        for y in Gf8::elements() {
            assert_eq!(Field::add(x, y), x + y);
            assert_eq!(Field::sub(x, y), x - y);
            assert_eq!(Field::mul(x, y), x * y);
            if !y.is_zero() {
                assert_eq!(Field::div(x, y), x / y);
            }
        }
    }
    assert!(Gf8::one().is_one());
    assert!(!Gf8::zero().is_one());
}

#[test]
fn assigning_operators_agree_with_the_operators() {
    for x in Gf8::elements() {
        for y in Gf8::elements() {
            let mut difference = x;
            difference -= y;
            assert_eq!(difference, x - y);
            let mut product = x;
            product *= y;
            assert_eq!(product, x * y);
        }
    }
}

#[test]
fn every_element_but_zero_has_one_inverse() {
    for x in Gf8::elements() {
        if x == Gf8::zero() {
            continue;
        }
        let inverses = Gf8::elements()
            .into_iter()
            .filter(|y| x * *y == Gf8::one())
            .count();
        assert_eq!(inverses, 1);
    }
}
