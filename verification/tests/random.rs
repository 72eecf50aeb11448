use nanocube2::cube::Cube;
use nanocube2::diagnostics::partition_data;
use nanocube2::naivecube::Naivecube;
use nanocube2::nanocube::Nanocube;
use rand::distributions::Uniform;
use rand::Rng;

fn generate_random_dataset(widths: &Vec<usize>, n: usize) -> Vec<Vec<usize>> {
    let mut rng = rand::thread_rng();
    let mut result = Vec::new();
    for _ in 0..n {
        result.push(
            widths
                .iter()
                .map(|w| rng.sample(Uniform::new(0, 1usize << w)))
                .collect(),
        );
    }
    result
}

fn generate_random_ranges(widths: &Vec<usize>, n: usize) -> Vec<Vec<(usize, usize)>> {
    let mut rng = rand::thread_rng();
    let mut result = Vec::new();
    for _ in 0..n {
        result.push(
            widths
                .iter()
                .map(|w| {
                    let dist = Uniform::new(0, 1usize << w);
                    let v1 = rng.sample(dist);
                    let v2 = rng.sample(dist);
                    (v1.min(v2), v1.max(v2) + 1)
                })
                .collect(),
        );
    }
    result
}

#[test]
fn nanocube_is_equivalent_to_naivecube() {
    let nruns = 100;
    let width = vec![24, 2, 2];
    let npoints = 100;
    let nranges = 5;
    for _ in 0..nruns {
        let data = generate_random_dataset(&width, npoints);
        let mut naivecube = Naivecube::<usize>::new(width.clone());
        let mut nanocube = Nanocube::<usize>::new(width.clone());
        let mut summaries = Vec::new();
        for point in &data {
            naivecube.add(1, point);
            summaries.push(1);
        }
        nanocube.add_many(&summaries, &data);
        let ranges = generate_random_ranges(&width, nranges);
        for range in ranges {
            let naive_result = naivecube.range_query(&range);
            let nc_result = nanocube.range_query(&range);
            if naive_result != nc_result {
                println!("mismatch!");
                println!("data: {:?}", &data);
                println!("query region: {:?}", &range);
                println!("naive result: {:?}", &naive_result);
                println!("nanocube res: {:?}", &nc_result);
                println!("{:?}", nanocube.summaries.values);
            }
            assert_eq!(naive_result, nc_result);
        }
    }
}

#[test]
fn parallel_nanocube_is_equivalent_to_nanocube() {
    // a number of cubes are built from the parts of the data, as if in
    // parallel, and merged in a final pass
    let width = vec![3];
    let npoints = 100;
    let data = generate_random_dataset(&width, npoints);
    let ncubes = 3;
    let nanocubes: Vec<Nanocube<usize>> = partition_data(&data, ncubes)
        .iter()
        .map(|slice| {
            let summaries: Vec<usize> = (0..slice.len()).map(|_x| 1).collect();
            let mut result = Nanocube::new_from_many(width.clone(), &summaries, slice);
            result.flush_release_list();
            result
        })
        .collect();
    let mut final_nanocube = nanocubes[0].clone();
    for (i, d) in nanocubes.iter().enumerate() {
        if i == 0 {
            continue;
        }
        final_nanocube = final_nanocube.mapply(d);
    }
    let mut naivecube = Naivecube::<usize>::new(width.clone());
    for point in &data {
        naivecube.add(1, point);
    }
    let nranges = 5;
    let ranges = generate_random_ranges(&width, nranges);
    for range in ranges {
        let naive_result = naivecube.range_query(&range);
        let nc_result = final_nanocube.range_query(&range);
        if naive_result != nc_result {
            println!("mismatch!");
            println!("data: {:?}", &data);
            println!("query region: {:?}", &range);
            println!("naive result: {:?}", &naive_result);
            println!("nanocube res: {:?}", &nc_result);
            println!("{:?}", final_nanocube.summaries.values);
        }
        assert_eq!(naive_result, nc_result);
    }
}

#[test]
fn random_cubes_with_weights_match_the_oracle() {
    let width = vec![4, 3, 2];
    for round in 0..20 {
        let data = generate_random_dataset(&width, 60);
        let mut naive = Naivecube::<usize>::new(width.clone());
        let mut nano = Nanocube::<usize>::new(width.clone());
        for (k, point) in data.iter().enumerate() {
            naive.add(k + round, point);
            nano.add(k + round, point);
            if k % 17 == 0 {
                nano.flush_release_list();
            }
        }
        for range in generate_random_ranges(&width, 20) {
            assert_eq!(naive.range_query(&range), nano.range_query(&range));
        }
    }
}

#[test]
fn random_merges_match_the_oracle() {
    let width = vec![3, 3];
    for _ in 0..20 {
        let first = generate_random_dataset(&width, 30);
        let second = generate_random_dataset(&width, 30);
        let mut naive = Naivecube::<usize>::new(width.clone());
        let mut a = Nanocube::<usize>::new(width.clone());
        let mut b = Nanocube::<usize>::new(width.clone());
        for p in &first {
            naive.add(1, p);
            a.add(1, p);
        }
        for p in &second {
            naive.add(1, p);
            b.add(1, p);
        }
        a.merge_cube(&b);
        a.flush_release_list();
        for range in generate_random_ranges(&width, 20) {
            assert_eq!(naive.range_query(&range), a.range_query(&range));
        }
    }
}
