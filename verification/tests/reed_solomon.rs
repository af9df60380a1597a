use fingerprint::gf::GaloisField;
use fingerprint::poly::Poly;
use fingerprint::rs::ReedSolomon;

#[test]
fn test_setup() {
    let prim_poly: usize = 0b100011101;
    let pow = 8;
    let generator = 0b10000011;
    let field = GaloisField::new(pow, prim_poly, generator);
    assert!(field.gf_log.len() == 256);
    assert!(field.gf_ilog.len() == field.gf_log.len());
    for i in 0..field.gf_log.len() {
        for j in 0..field.gf_log.len() {
            if i != j {
                assert!(field.gf_log[i] != field.gf_log[j], "Failure at {}, {}.  gf_log: {:#?}", i, j, field.gf_log);
                assert!(field.gf_ilog[i] != field.gf_ilog[j] || field.gf_ilog[i] == 1);
            }
        }
    }
}

#[test]
fn test_addition() -> Result<(), &'static str> {
    let prim_poly: usize = 0b100011101;
    let pow = 8;
    let generator = 0b10000011;
    let field = GaloisField::new(pow, prim_poly, generator);
    for i in 0..255 {
        for j in 0..255 {
            let sum = field.sum(i, j)?;
            let should_be_i = field.sum(sum, j)?;
            assert!(i == should_be_i, "Addition is own inverse");
            assert!(sum < 256, "Field is closed under addition");
            if j == 0 {
                assert!(sum == i, "Additive identity is an identity");
            }
            assert!(sum == i ^ j, "Addition is xor");
        }
    }
    Ok(())
}

#[test]
fn test_multiplication() -> Result<(), &'static str> {
    let prim_poly: usize = 0b100011101;
    let pow = 8;
    let generator = 0b10000011;
    let field = GaloisField::new(pow, prim_poly, generator);
    for i in 0..255 {
        let by_zero = field.mult(i, 0)?;
        let by_id = field.mult(i, 1)?;
        assert!(by_id == i, "Multiplying by 1 yields original value: (i, by_id)= {},{}", i, by_id);
        assert!(by_zero == 0, "Multiplying by zero yields zero");
        for j in 0..255 {
            let i_j = field.mult(i, j)?;
            let j_i = field.mult(j, i)?;
            match field.div(i_j, j) {
                Ok(t) => assert!(t == i && j != 0, "Division is inverse multiplication: i:{},j:{},t{}", i, j, t),
                Err(_) => assert!(j == 0, "Division fails only for division by zero or non-field elements"),
            }
            assert!(i_j == j_i, "Multiplication commutes");
            assert!(i_j < 256, "Field is closed under multiplication");
            for k in 0..255 {
                let i_jk = field.mult(i, field.sum(j, k)?)?;
                let ij_ik = field.sum(field.mult(i, j)?, field.mult(i, k)?)?;
                assert!(i_jk == ij_ik, "Multiplication distributes over addition");
            }
        }
        if let Some(t) = field.mult_inverse(i) {
            assert!(field.mult(i, t)? == 1);
        } else {
            assert!(i == 0);
        }
    }
    match field.mult(1000, 2) {
        Ok(_) => panic!("Invalid multiplications should fail"),
        Err(_) => (),
    };
    Ok(())
}

#[test]
fn test_polynomial() -> Result<(), &'static str> {
    let prim_poly: usize = 0b100011101;
    let pow = 8;
    let generator = 0b10000011;
    let field = GaloisField::new(pow, prim_poly, generator);
    let zero_p = Poly::mononomial(0, 0);
    let one_p = Poly::mononomial(1, 0);
    let p_one = Poly { coeffs: vec![239, 228, 65, 146] };
    let p_two = Poly { coeffs: vec![167, 54, 253, 181, 41] };
    let p_three = Poly { coeffs: vec![145, 183] };
    let mult_by_zero = field.mult_poly(&p_one, &zero_p)?;
    let mult_by_one = field.mult_poly(&p_one, &one_p)?;
    let add_zero = field.sum_poly(&p_one, &zero_p)?;

    let prod_of_poly = field.mult_poly(&p_one, &p_two)?;
    let sum_of_poly = field.sum_poly(&p_one, &p_two)?;

    let (should_be_p_one, should_be_zero) = field.div_poly(&prod_of_poly, &p_two)?;

    let should_be_p_two = field.sum_poly(&sum_of_poly, &p_one)?;
    let one_twothree = field.mult_poly(&p_one, &field.sum_poly(&p_two, &p_three)?)?;
    let onetwo_onethree = field.sum_poly(&field.mult_poly(&p_one, &p_two)?, &field.mult_poly(&p_one, &p_three)?)?;

    let (div_res, div_rem) = field.div_poly(&p_two, &p_three)?;

    let should_also_be_p_two = field.sum_poly(&field.mult_poly(&div_res, &p_three)?, &div_rem)?;
    let should_be_err = field.div_poly(&p_two, &zero_p);
    match should_be_err {
        Ok(_) => panic!("Div by zero should yield an error"),
        Err(_) => (),
    };
    let (should_be_p_three, _) = field.div_poly(&p_three, &one_p)?;
    for i in 0..255 {
        let p_one_val = field.eval_poly_at(&p_one, i)?;
        let p_two_val = field.eval_poly_at(&p_two, i)?;
        let zero_res = field.eval_poly_at(&mult_by_zero, i)?;
        assert!(zero_res == 0, "Multiplication by zero yields zero, {}, {}", zero_res, i);
        assert!(field.eval_poly_at(&mult_by_one, i)? == p_one_val, "Multiplicative id is one");
        assert!(field.eval_poly_at(&add_zero, i)? == p_one_val, "0 is additive id");
        assert!(field.eval_poly_at(&prod_of_poly, i)? == field.mult(p_one_val, p_two_val)?, "eval of mult of poly is mult of eval of poly");
        assert!(field.eval_poly_at(&sum_of_poly, i)? == field.sum(p_one_val, p_two_val)?, "eval of sum of poly is sum of eval of poly");
        assert!(field.eval_poly_at(&should_be_p_one, i)? == p_one_val, "division is inverse mult");
        assert!(field.eval_poly_at(&should_be_zero, i)? == 0, "Remainder of even division is zero poly");
        assert!(field.eval_poly_at(&should_be_p_two, i)? == p_two_val, "Addition is own inverse");
        assert!(field.eval_poly_at(&one_twothree, i)? == field.eval_poly_at(&onetwo_onethree, i)?, "Multiplication distributes");
        assert!(field.eval_poly_at(&should_also_be_p_two, i)? == p_two_val, "result*divisor+remainder = original value");
        assert!(field.eval_poly_at(&should_be_p_three, i)? == field.eval_poly_at(&p_three, i)?, "Div by one yields original value");
    }
    Ok(())
}

#[test]
fn test_generator() -> Result<(), &'static str> {
    let field = GaloisField::new(4, 0b10011, 0b0010);
    let expected = vec![
        field.pow(field.generator, 6)?,
        field.pow(field.generator, 9)?,
        field.pow(field.generator, 6)?,
        field.pow(field.generator, 4)?,
        field.pow(field.generator, 14)?,
        field.pow(field.generator, 10)?,
        1,
    ];
    let rs = ReedSolomon { n: 15, k: 9, field: field };
    let generator = rs.generator_poly();
    for i in 0..generator.coeffs.len() {
        assert!(generator.coeffs[i] == expected[i]);
    }
    Ok(())
}

#[test]
fn test_syndrome() -> Result<(), &'static str> {
    let field = GaloisField::new(4, 0b10011, 0b0010);
    let received = Poly {
        coeffs: vec![
            field.pow(field.generator, 12)?,
            field.pow(field.generator, 8)?,
            field.pow(field.generator, 3)?,
            field.pow(field.generator, 4)?,
            field.pow(field.generator, 10)?,
            field.pow(field.generator, 8)?,
            0,
            field.pow(field.generator, 11)?,
            1,
        ],
    };
    let correct_syndromes = vec![1, 1, field.pow(field.generator, 5)?, 1, 0, field.pow(field.generator, 10)?];
    let rs = ReedSolomon { n: 15, k: 9, field: field };
    let synd = rs.syndrome_components(&received);
    for i in 0..synd.len() {
        assert!(synd.contains(&correct_syndromes[i]));
        assert!(correct_syndromes.contains(&synd[i]));
    }
    Ok(())
}

#[test]
fn test_berlekamp() -> Result<(), &'static str> {
    let field = GaloisField::new(4, 0b10011, 0b0010);
    let received = Poly {
        coeffs: vec![
            field.pow(field.generator, 12)?,
            field.pow(field.generator, 8)?,
            field.pow(field.generator, 3)?,
            field.pow(field.generator, 4)?,
            field.pow(field.generator, 10)?,
            field.pow(field.generator, 8)?,
            0,
            field.pow(field.generator, 11)?,
            1,
        ],
    };
    let correct_sigma = vec![1, 1, field.pow(field.generator, 10)?];
    let rs = ReedSolomon { n: 15, k: 9, field: field };
    let result = rs.berlekamp(&rs.syndrome_components(&received));
    for i in 0..result.coeffs.len() {
        assert!(result.coeffs[i] == correct_sigma[i], "result: {:#?}", result);
    }
    assert!(result.coeffs.len() == 3);
    Ok(())
}

#[test]
fn test_error_correction() -> Result<(), &'static str> {
    let field = GaloisField::new(4, 0b10011, 0b0010);
    let received = Poly {
        coeffs: vec![
            field.pow(field.generator, 12)?,
            field.pow(field.generator, 8)?,
            field.pow(field.generator, 3)?,
            field.pow(field.generator, 4)?,
            field.pow(field.generator, 10)?,
            field.pow(field.generator, 8)?,
            0,
            field.pow(field.generator, 11)?,
            1,
        ],
    };
    let correct = vec![
        field.pow(field.generator, 12)?,
        field.pow(field.generator, 8)?,
        field.pow(field.generator, 3)? ^ 1,
        field.pow(field.generator, 4)?,
        field.pow(field.generator, 10)?,
        field.pow(field.generator, 8)?,
        0,
        field.pow(field.generator, 11)?,
        1 ^ 1,
    ];
    let rs = ReedSolomon { n: 15, k: 9, field: field };
    let result = rs.decode(received)?;
    for i in 0..result.coeffs.len() {
        assert!(result.coeffs[i] == correct[i], "received: {:#?}, expected: {:#?}", result, correct);
    }
    assert!(result.coeffs.len() == correct.len());
    Ok(())
}
